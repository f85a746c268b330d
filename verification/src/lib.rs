pub mod dns;
pub mod query;
