pub mod address;
pub mod caching;
pub mod external;
pub mod locator;
pub mod reader;
pub mod searcher;

pub use address::{Address, AddressRange, VariableLengthAddressRange};
pub use locator::MemoryLocator;
pub use reader::MemoryReader;
pub use searcher::MemorySearcher;
