//! Question-region detection for scanned exam papers.
pub mod bitmap;
pub mod anchor_fusion;
pub mod anchor_inference;
pub mod block_detection;
pub mod components;
pub mod detector;
pub mod geometry;
pub mod laws;
pub mod layout_detector;
pub mod line_analysis;
pub mod ocr;
pub mod pattern_match;
pub mod preprocessing;
pub mod projection;
pub mod question_locator;
pub mod segmentation;
pub mod sorting;
pub mod text;
pub mod types;
pub mod union_find;

use vstd::prelude::*;

verus! {

/// Version string of this library.
pub fn get_version() -> (version: String)
    ensures
        version@ == "0.1.0"@,
{
    String::from_str("0.1.0")
}

} // verus!
