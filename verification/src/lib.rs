//! Market data engine primitives: normalized models, order book ladders,
//! AMM virtualizers, wire codecs and client fan-out, with verified contracts.

pub mod models;
pub mod u256;
pub mod order_book;
pub mod ring;
pub mod curve;
pub mod amm;
pub mod v4;
pub mod simulator;
pub mod fanout;
pub mod bitmap;
pub mod wire;
pub mod sbe;
pub mod fast_json;
pub mod session;
pub mod router;
pub mod shm;
pub mod websocket;
pub mod cefi;
pub mod onchain;
pub mod kernel_bypass;
