//! A verified client library for an IPv6-addressed pixel canvas.
//!
//! Each pixel draw command is encoded into the low 64 bits of an IPv6
//! destination address; the caller emits one fixed 8-byte ICMPv6
//! echo-request frame per encoded address.  The library covers the
//! address encoding, the 2x2 block-merging optimizer, the frame-delta
//! computation between successive frames, and the batching decisions of
//! the dispatcher; socket and file I/O live outside it.

pub mod dispatcher;
pub mod draw_image;
pub mod draw_pixels;
pub mod error;
pub mod frames;
pub mod image;
pub mod optimizer;
pub mod pixel;
pub mod pixels;
pub mod placer;

pub use dispatcher::BatchDispatcher;
pub use draw_image::draw_image;
pub use draw_pixels::draw_pixels;
pub use error::PlacerError;
pub use frames::frame_delta;
pub use image::ImageSample;
pub use image::build_pixels_from_image;
pub use optimizer::optimize_pixels;
pub use pixel::Pixel;
pub use placer::CanvasAddress;
pub use placer::Placer;
pub use placer::echo_request_frame;
