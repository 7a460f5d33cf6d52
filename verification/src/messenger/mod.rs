pub mod admin_panel;
pub mod client;
pub mod legacy;
pub mod protocol;
pub mod server;
