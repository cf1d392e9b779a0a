pub mod array;
pub mod arrayptr;
pub mod cursor;
pub mod deserializetrait;
pub mod eager;
pub mod error;
pub mod layout;
pub mod lazy;
pub mod linkedlist;
pub mod native;
pub mod postsizedarray;
pub mod ptr;
pub mod segments;
pub mod string;
pub mod zerolengtharray;

pub use arrayptr::ArrayPtr;
pub use deserializetrait::Deserialize;
pub use eager::Eager;
pub use error::Error;
pub use lazy::LazyDeserialize;
pub use postsizedarray::PostSizedArray;
pub use ptr::Ptr;
pub use zerolengtharray::ZeroLengthArray;
