pub mod buckets;
pub mod bytes;
pub mod codec;
pub mod consts;
pub mod decode;
pub mod encode;
pub mod error;
pub mod header;
pub mod image;
pub mod island;
pub mod laws;
pub mod pixel;
pub mod region;
pub mod types;
pub mod utils;

pub use crate::decode::decode_qoi;
pub use crate::encode::{encode_max_len, encode_to_buf, encode_to_vec, Encoder};
pub use crate::error::Error;
pub use crate::header::Header;
pub use crate::image::{grayscale_alpha_to_rgba, grayscale_to_rgb, Image};
pub use crate::island::{Island, Islands, Point};
pub use crate::types::{Channels, ColorSpace, DiffPolicy, IslandStorage, Settings};
