pub mod client_message;
pub mod network_message;
