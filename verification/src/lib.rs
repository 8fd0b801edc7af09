pub mod decode;
pub mod errors;
pub mod host;
pub mod invoke;
pub mod json;
pub mod laws;
pub mod name;
pub mod registry;
pub mod store;
mod text;
pub mod value;
