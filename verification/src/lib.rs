//! The decisions of a low-latency screen streamer: which tiles of a frame
//! changed, how they are merged, ordered, packed and acknowledged, and how a
//! client is let in and steered. Everything here is plain computation; sockets,
//! threads, the compositor and the image codec live in the application.

pub mod auth;
pub mod bandwidth;
pub mod bench;
pub mod bits;
pub mod capture;
pub mod cli;
pub mod config;
pub mod convert;
pub mod diff;
pub mod encoder;
pub mod error;
pub mod frame;
pub mod hashes;
pub mod ice;
pub mod input;
pub mod json;
pub mod oneshot;
pub mod pictures;
pub mod pipeline;
pub mod priority;
pub mod profiler;
pub mod protocol;
pub mod screencopy;
pub mod server;
pub mod session;
pub mod signaling;
pub mod stream;
pub mod text;
pub mod tile;
pub mod tile_buffer_pool;
pub mod tile_extract;
pub mod tile_hash;
pub mod tls;
pub mod transport;
pub mod websocket;
