//! Navigation support for Salesforce B2C Commerce (SFCC) sources: finding the
//! path, module or resource key under the cursor and resolving it to files.

pub mod text;
pub mod reference;
pub mod position;
pub mod path;
pub mod order;
pub mod workspace;
pub mod walk;
pub mod disk;
pub mod bundle;
pub mod resolve;
pub mod server;
pub mod extension;
pub mod install;
pub mod locality;
