//! Verified core of the BrainCut blur service: in-place region blurring and
//! pixelation on raw BGR frame buffers, frame resizing, preview rendering,
//! FFmpeg argument construction, detection tracking, job planning and the
//! string and path rules that the service applies to its requests.
use vstd::prelude::*;

pub mod grid;
pub mod image_ops;
pub mod resize;
pub mod preview;
pub mod tracking;
pub mod text;
pub mod render;
pub mod deface;
pub mod pipeline;
pub mod paths;
pub mod models;
pub mod status;
pub mod jobs;
pub mod cancel;
pub mod tiles;

verus! {

} // verus!
