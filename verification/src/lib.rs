pub mod error;
pub mod bytes;
pub mod frame;
pub mod scan;
pub mod map;
pub mod laws;
pub mod layout;
pub mod crypt;
pub mod config;
pub mod ipc;
pub mod io;
pub mod reload;
pub mod reopen;
pub mod persist;
pub mod doc;
pub mod query;
pub mod auth;
pub mod link;
pub mod channels;
