pub mod filter;
pub mod http;
pub mod websocket;
