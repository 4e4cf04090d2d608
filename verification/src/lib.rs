//! Start-up logic of a server-rendered web site: the settings it reads from
//! its environment and the one database connection pool it holds.
//!
//! Nothing here touches the environment, the network or a file. A driver does
//! that work and hands the outcomes in as plain values; what is decided from
//! them is decided here, and proved.

pub mod address;
pub mod database;
pub mod env;
pub mod error;
