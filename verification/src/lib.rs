pub mod admission;
pub mod amount;
pub mod auth;
pub mod broadcast;
pub mod book;
pub mod errors;
pub mod order;
pub mod durable;
pub mod orderbook;
pub mod session;
pub mod store;
pub mod wallet_addr;
