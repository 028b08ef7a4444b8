//! Whole-frame matting: every frame leaves as a grayscale alpha of its
//! foreground - 255 where the subject owns the pixel, 0 where the background
//! does, and the values between are the blend.
//!
//! The graph is longpipe's small matting net, run through `wasi:nn` at its
//! fixed 320x192 input. The net has no classes: its one output is the
//! foreground alpha, so there is nothing to narrow and no parameters to
//! take. The frame is stretch-resized to the model's size - no letterbox, no
//! crop, the way the runtime the weights shipped in feeds it - as RGB
//! rescaled to 0..1 with no further normalization, and the alpha that comes
//! back is resized bilinearly onto the frame's own geometry.
//!
//! The matte keeps the frame's geometry and pixel format, so it feeds
//! straight into whatever reads a mask beside the picture: in yuv420p the
//! alpha is the luma with neutral chroma, in rgba the same value in red,
//! green and blue, opaque.
//!
//! All arithmetic on samples is single precision, computed in whole numbers
//! on bit patterns ([`single`]) and stated exactly ([`num`]). What is asked
//! of the graph, and what is made of its answers, is decided in [`session`];
//! loading the graph and running it are the caller's.

pub mod accuracy;
pub mod alpha;
pub mod arith;
pub mod input;
pub mod model;
pub mod num;
pub mod params;
pub mod pixels;
pub mod rounding;
pub mod session;
pub mod single;
pub mod taps;
pub mod text;
pub mod window;

pub use alpha::{le_f32s, output, upscale_alpha};
pub use input::{resize_rgb_row, to_input};
pub use model::{MODEL, MODEL_H, MODEL_W};
pub use params::{set_params, validate_params, PARAMS_SCHEMA};
pub use pixels::{row_to_rgb, to_frame, PixFmt};
pub use session::{failed, Format, GraphError, InputName, Next, Opened, Reply, Request, Tensor, Video};
pub use single::Single;
pub use taps::Taps;
pub use window::{describe, Processed};
