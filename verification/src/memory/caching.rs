pub mod reader;

pub use reader::CachingMemoryReader;
