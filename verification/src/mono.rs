pub mod class;
pub mod ghashtable;
pub mod hash;
pub mod images;
pub mod internalhashtable;
pub mod object;
pub mod utils;

pub use class::{
    Class, ClassInternals, MonoClassField, MonoClassRuntimeInfo, MonoType, MonoVTable, MONO_TOKEN_TYPE_DEF,
};
pub use ghashtable::GHashTable;
pub use images::{Image, LoadedImages, MonoStreamHeader, MonoTableInfo};
pub use internalhashtable::MonoInternalHashTable;
pub use object::{Object, ObjectInternals};
