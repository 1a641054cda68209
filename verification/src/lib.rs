pub mod deploy;
pub mod error;
pub mod generate;
pub mod identify;
pub mod keyfile;
pub mod nm;
pub mod reconcile;
pub mod store;
pub mod strutil;
pub mod types;
