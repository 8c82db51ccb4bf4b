//! Verified core of the glue video-texture pipeline: frame alignment across
//! several decoded streams, audio chunking and playback buffering, NV12
//! conversion of RGB pictures, and the player's bookkeeping.

pub mod align;
pub mod audio;
pub mod buffers;
pub mod color;
pub mod decode;
pub mod layout;
pub mod logs;
pub mod nv12;
pub mod picture;
pub mod player;
pub mod state;
pub mod sync;
