pub mod term;
pub mod text;
pub mod protocol;
pub mod bloom;
pub mod plugin;
pub mod tikv;
pub mod tikv_backend;
pub mod tikv_layout;
pub mod store;
pub mod nquads;
pub mod transactions;
pub mod changelog;
pub mod changelog_laws;
pub mod shacl;
pub mod server;
pub mod cdc;
pub mod backend;
pub mod memory;
