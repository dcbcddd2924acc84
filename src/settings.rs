//! Render settings of the path tracer.
use vstd::prelude::*;

verus! {

/// Samples accumulated per frame when streaming.
pub const STREAMING_SAMPLES: u32 = 64;

/// Settings of one render run. Paths are held as text.
pub struct Args {
    pub maze: Option<String>,
    pub output: String,
    pub width: u32,
    pub height: u32,
    pub samples: u32,
    pub gradient_test: bool,
    pub vulkan: bool,
    pub server: bool,
    pub animated: bool,
    pub test_materials: bool,
}

impl Args {
    /// Settings for streaming frames: no maze file, output `streaming.png`,
    /// the given size, `STREAMING_SAMPLES` samples, the Vulkan backend and
    /// animation on, every other option off.
    pub fn default_for_streaming(width: u32, height: u32) -> (r: Self)
        ensures
            r.maze is None,
            r.output@ == "streaming.png"@,
            r.width == width,
            r.height == height,
            r.samples == STREAMING_SAMPLES,
            !r.gradient_test,
            r.vulkan,
            !r.server,
            r.animated,
            !r.test_materials,
    {
        Args {
            maze: None,
            output: "streaming.png".to_owned(),
            width,
            height,
            samples: STREAMING_SAMPLES,
            gradient_test: false,
            vulkan: true,
            server: false,
            animated: true,
            test_materials: false,
        }
    }
}

} // verus!
