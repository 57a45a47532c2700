//! Migration of a password database's groups and entries into a secret
//! store: storage paths, secret records and the order of the upserts.

pub mod sanitize;
pub mod record;
pub mod walk;
pub mod driver;
pub mod commandline_opts;
