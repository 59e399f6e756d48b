pub mod connection;
pub mod forwarder;
pub mod logline;
pub mod parser;
pub mod request;
pub mod text;
pub mod uri;
pub mod wire;
