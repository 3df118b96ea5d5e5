//! Integer-exact image filters: a separable convolution blur and a Kuwahara
//! smoothing filter over RGBA8 rasters, with a row partition whose results do
//! not depend on the number of workers.
use vstd::prelude::*;

pub mod grid;
pub mod partition;
pub mod blur;
pub mod convert;
pub mod integral;
pub mod kuwahara;

pub use blur::{apply_gaussian_blur, horizontal_gaussian_blur, horizontal_pass, kernel_is_valid};
pub use grid::ImageData;
pub use integral::{IntegralImage, RegionStats};
pub use kuwahara::{apply_kuwahara_filter, kuwahara_filter_pixel, process_kuwahara_rows};
pub use partition::row_range;

verus! {

/// Why a filter refused to run.
#[derive(Debug, Clone, Copy, PartialEq, Eq, Structural)]
pub enum FilterError {
    /// The buffer length is not `width * height * 4`, or the channel count is not 4.
    InvalidBuffer,
    /// Fewer than one worker was asked for.
    InvalidWorkerCount,
    /// The weights are of even length, sum to zero, or sum past `u32::MAX`.
    InvalidKernel,
    /// The raster has more pixels than the exact statistics can hold.
    TooLarge,
}

} // verus!
