//! Counting of live GPU resources, for leak detection.
use vstd::prelude::*;

verus! {

/// The kind of a tracked resource.
#[derive(Clone, Copy, Debug, PartialEq, Eq, Structural)]
pub enum ResourceKind {
    Buffer,
    Texture,
    Pipeline,
}

/// A token for one live resource; handing it back to `release` ends it. Only
/// a tracker creates one, and it cannot be copied.
#[derive(Debug)]
pub struct TrackedResource {
    kind: ResourceKind,
}

impl TrackedResource {
    /// The kind of the resource.
    pub closed spec fn spec_kind(&self) -> ResourceKind {
        self.kind
    }

    /// The kind of the resource.
    pub fn kind(&self) -> (r: ResourceKind)
        ensures
            r == self.spec_kind(),
    {
        self.kind
    }
}

/// Live resource counts by kind.
pub struct ResourceTracker {
    buffers: u64,
    textures: u64,
    pipelines: u64,
}

impl ResourceTracker {
    /// The live counts: buffers, textures, pipelines.
    pub closed spec fn counts(&self) -> (u64, u64, u64) {
        (self.buffers, self.textures, self.pipelines)
    }

    /// A tracker with nothing live.
    pub fn new() -> (r: Self)
        ensures
            r.counts() == (0u64, 0u64, 0u64),
    {
        ResourceTracker { buffers: 0, textures: 0, pipelines: 0 }
    }

    /// Records a new live buffer.
    pub fn track_buffer(&mut self) -> (r: TrackedResource)
        requires
            old(self).counts().0 < u64::MAX,
        ensures
            r.spec_kind() == ResourceKind::Buffer,
            final(self).counts() == (
                (old(self).counts().0 + 1) as u64,
                old(self).counts().1,
                old(self).counts().2,
            ),
    {
        self.buffers = self.buffers + 1;
        TrackedResource { kind: ResourceKind::Buffer }
    }

    /// Records a new live texture.
    pub fn track_texture(&mut self) -> (r: TrackedResource)
        requires
            old(self).counts().1 < u64::MAX,
        ensures
            r.spec_kind() == ResourceKind::Texture,
            final(self).counts() == (
                old(self).counts().0,
                (old(self).counts().1 + 1) as u64,
                old(self).counts().2,
            ),
    {
        self.textures = self.textures + 1;
        TrackedResource { kind: ResourceKind::Texture }
    }

    /// Records a new live pipeline.
    pub fn track_pipeline(&mut self) -> (r: TrackedResource)
        requires
            old(self).counts().2 < u64::MAX,
        ensures
            r.spec_kind() == ResourceKind::Pipeline,
            final(self).counts() == (
                old(self).counts().0,
                old(self).counts().1,
                (old(self).counts().2 + 1) as u64,
            ),
    {
        self.pipelines = self.pipelines + 1;
        TrackedResource { kind: ResourceKind::Pipeline }
    }

    /// Ends a live resource: its kind's count drops by one, or stays at 0.
    pub fn release(&mut self, res: TrackedResource)
        ensures
            final(self).counts() == match res.spec_kind() {
                ResourceKind::Buffer => (
                    if old(self).counts().0 > 0 {
                        (old(self).counts().0 - 1) as u64
                    } else {
                        0u64
                    },
                    old(self).counts().1,
                    old(self).counts().2,
                ),
                ResourceKind::Texture => (
                    old(self).counts().0,
                    if old(self).counts().1 > 0 {
                        (old(self).counts().1 - 1) as u64
                    } else {
                        0u64
                    },
                    old(self).counts().2,
                ),
                ResourceKind::Pipeline => (
                    old(self).counts().0,
                    old(self).counts().1,
                    if old(self).counts().2 > 0 {
                        (old(self).counts().2 - 1) as u64
                    } else {
                        0u64
                    },
                ),
            },
    {
        match res.kind {
            ResourceKind::Buffer => {
                self.buffers = self.buffers.saturating_sub(1);
            },
            ResourceKind::Texture => {
                self.textures = self.textures.saturating_sub(1);
            },
            ResourceKind::Pipeline => {
                self.pipelines = self.pipelines.saturating_sub(1);
            },
        }
    }

    /// The live counts: buffers, textures, pipelines.
    pub fn active_resources(&self) -> (r: (u64, u64, u64))
        ensures
            r == self.counts(),
    {
        (self.buffers, self.textures, self.pipelines)
    }
}

} // verus!
