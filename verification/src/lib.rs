pub mod deserialize;
pub mod memory;
pub mod mono;
pub mod run;
pub mod text;
