pub mod buffer;
pub mod config;
pub mod fsb4;
pub mod helpers;
pub mod mp3;
pub mod pipeline;
pub mod roundtrip;
pub mod utils;
