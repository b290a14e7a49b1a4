//! Path routing for the Uzumibi edge framework.
pub mod helpers;
pub mod key;
pub mod laws;
pub mod request;
pub mod response;
pub mod scaffold;
pub mod store;
pub mod string_map;
pub mod text;
pub mod wire;
