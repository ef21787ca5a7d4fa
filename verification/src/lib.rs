pub mod crypto;
pub mod encoding;
pub mod store;
pub mod text;
pub mod vault;
pub mod history;
