//! HLS packaging of MP4 files: parsing a movie, cutting it into segments at keyframes,
//! and remuxing each segment to fragmented MP4 on demand.

pub mod anatomy;
pub mod answers;
pub mod api;
pub mod boxes;
pub mod cache;
pub mod codec;
pub mod error;
pub mod fmp4;
pub mod guard;
pub mod headers;
pub mod hls;
pub mod identifiers;
pub mod json;
pub mod locate;
pub mod movies;
pub mod mp4;
pub mod names;
pub mod outcomes;
pub mod plan;
pub mod players;
pub mod playlist;
pub mod remux;
pub mod roundtrip;
pub mod routes;
pub mod samples;
pub mod spelling;
pub mod tables;
pub mod text;
