pub mod locator;

pub use locator::ExternalMemoryLocator;
