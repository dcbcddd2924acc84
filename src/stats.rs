//! Frame timing and GPU memory bookkeeping.
use vstd::prelude::*;

verus! {

/// Frame and render times over a sliding window of the latest frames, in
/// microseconds.
pub struct FrameStats {
    frame_times: Vec<u64>,
    render_times: Vec<u64>,
    window_size: usize,
}

impl FrameStats {
    /// Frame times, oldest first.
    pub closed spec fn frames(&self) -> Seq<u64> {
        self.frame_times@
    }

    /// Render times, oldest first.
    pub closed spec fn renders(&self) -> Seq<u64> {
        self.render_times@
    }

    /// The window size.
    pub closed spec fn window(&self) -> nat {
        self.window_size as nat
    }

    /// Both series have one entry per recorded frame in the window.
    pub closed spec fn wf(&self) -> bool {
        self.frame_times@.len() == self.render_times@.len()
    }

    /// No frames yet, keeping at most `window_size` of them.
    pub fn new(window_size: usize) -> (r: Self)
        ensures
            r.wf(),
            r.frames() == Seq::<u64>::empty(),
            r.renders() == Seq::<u64>::empty(),
            r.window() == window_size,
    {
        FrameStats { frame_times: Vec::new(), render_times: Vec::new(), window_size }
    }

    /// Records one frame; when the window is full, the oldest frame leaves it
    /// first.
    pub fn record_frame(&mut self, total_us: u64, render_us: u64)
        requires
            old(self).wf(),
        ensures
            final(self).wf(),
            final(self).window() == old(self).window(),
            old(self).frames().len() >= old(self).window() && old(self).frames().len() > 0 ==> final(self).frames() == old(self).frames().drop_first().push(total_us) && final(self).renders()
                == old(self).renders().drop_first().push(render_us),
            !(old(self).frames().len() >= old(self).window() && old(self).frames().len() > 0) ==> final(self).frames() == old(self).frames().push(total_us) && final(self).renders() == old(self).renders().push(render_us),
    {
        if self.frame_times.len() >= self.window_size && self.frame_times.len() > 0 {
            self.frame_times.remove(0);
            self.render_times.remove(0);
            assert(self.frame_times@ =~= old(self).frames().drop_first());
            assert(self.render_times@ =~= old(self).renders().drop_first());
        }
        self.frame_times.push(total_us);
        self.render_times.push(render_us);
    }

    /// Frame times in the window, oldest first, in microseconds.
    pub fn frame_times_us(&self) -> (r: Vec<u64>)
        ensures
            r@ == self.frames(),
    {
        self.frame_times.clone()
    }

    /// Render times in the window, oldest first, in microseconds.
    pub fn render_times_us(&self) -> (r: Vec<u64>)
        ensures
            r@ == self.renders(),
    {
        self.render_times.clone()
    }
}

/// One named allocation.
pub struct Allocation {
    pub name: String,
    pub size: usize,
}

/// Named GPU allocations with the running and peak totals.
pub struct MemoryTracker {
    allocations: Vec<Allocation>,
    total_allocated: usize,
    peak_allocated: usize,
}

/// Names of the allocations, in order.
pub open spec fn allocation_names(a: Seq<Allocation>) -> Seq<Seq<char>> {
    a.map_values(|x: Allocation| x.name@)
}

impl MemoryTracker {
    /// The allocations, as name and size.
    pub closed spec fn entries(&self) -> Seq<(Seq<char>, usize)> {
        self.allocations@.map_values(|x: Allocation| (x.name@, x.size))
    }

    /// The running total.
    pub closed spec fn total(&self) -> usize {
        self.total_allocated
    }

    /// The largest running total so far.
    pub closed spec fn peak(&self) -> usize {
        self.peak_allocated
    }

    /// Allocation names are unique and the peak is at least the total.
    pub closed spec fn wf(&self) -> bool {
        &&& allocation_names(self.allocations@).no_duplicates()
        &&& self.total_allocated <= self.peak_allocated
    }

    /// No allocations.
    pub fn new() -> (r: Self)
        ensures
            r.wf(),
            r.entries() == Seq::<(Seq<char>, usize)>::empty(),
            r.total() == 0,
            r.peak() == 0,
    {
        let r = MemoryTracker { allocations: Vec::new(), total_allocated: 0, peak_allocated: 0 };
        assert(r.entries() =~= Seq::<(Seq<char>, usize)>::empty());
        assert(allocation_names(r.allocations@) =~= Seq::<Seq<char>>::empty());
        r
    }

    fn position(&self, name: &String) -> (r: Option<usize>)
        ensures
            r matches Some(i) ==> i < self.entries().len() && self.entries()[i as int].0 == name@,
            r is None ==> forall|i: int| 0 <= i < self.entries().len() ==> #[trigger] self.entries()[i].0 != name@,
    {
        let mut i: usize = 0;
        while i < self.allocations.len()
            invariant
                i <= self.allocations@.len(),
                forall|k: int| 0 <= k < i ==> #[trigger] self.entries()[k].0 != name@,
            decreases self.allocations.len() - i,
        {
            if self.allocations[i].name == *name {
                return Some(i);
            }
            i = i + 1;
        }
        None
    }

    /// Records `size` bytes under `name`, replacing the size of an allocation
    /// of that name; the running total grows by `size` and the peak follows it.
    pub fn allocate(&mut self, name: String, size: usize)
        requires
            old(self).wf(),
            old(self).total() + size <= usize::MAX,
        ensures
            final(self).wf(),
            final(self).total() == old(self).total() + size,
            final(self).peak() == if final(self).total() > old(self).peak() {
                final(self).total()
            } else {
                old(self).peak()
            },
            (exists|i: int| 0 <= i < old(self).entries().len() && #[trigger] old(self).entries()[i].0 == name@)
                ==> exists|i: int|
                0 <= i < old(self).entries().len() && old(self).entries()[i].0 == name@ && final(self).entries()
                    == #[trigger] old(self).entries().update(i, (name@, size)),
            !(exists|i: int| 0 <= i < old(self).entries().len() && #[trigger] old(self).entries()[i].0 == name@)
                ==> final(self).entries() == old(self).entries().push((name@, size)),
    {
        let ghost e0 = self.entries();
        let ghost n0 = allocation_names(self.allocations@);
        match self.position(&name) {
            Some(i) => {
                self.allocations[i].size = size;
                assert(self.entries() =~= e0.update(i as int, (name@, size)));
                assert(allocation_names(self.allocations@) =~= n0);
            },
            None => {
                let ghost nm = name@;
                self.allocations.push(Allocation { name, size });
                assert(self.entries() =~= e0.push((nm, size)));
                assert(allocation_names(self.allocations@) =~= n0.push(nm));
                assert forall|i: int| 0 <= i < n0.len() implies n0[i] != nm by {
                    assert(e0[i].0 == n0[i]);
                }
            },
        }
        self.total_allocated = self.total_allocated + size;
        if self.total_allocated > self.peak_allocated {
            self.peak_allocated = self.total_allocated;
        }
    }

    /// Forgets the allocation named `name`, if any; the running total drops
    /// by its size, stopping at 0.
    pub fn deallocate(&mut self, name: &str)
        requires
            old(self).wf(),
        ensures
            final(self).wf(),
            final(self).peak() == old(self).peak(),
            (exists|i: int| 0 <= i < old(self).entries().len() && #[trigger] old(self).entries()[i].0 == name@)
                ==> exists|i: int|
                0 <= i < old(self).entries().len() && old(self).entries()[i].0 == name@ && final(self).entries()
                    == #[trigger] old(self).entries().remove(i) && final(self).total() == if old(self).total()
                    >= old(self).entries()[i].1 {
                    (old(self).total() - old(self).entries()[i].1) as usize
                } else {
                    0usize
                },
            !(exists|i: int| 0 <= i < old(self).entries().len() && #[trigger] old(self).entries()[i].0 == name@)
                ==> final(self).entries() == old(self).entries() && final(self).total() == old(self).total(),
    {
        let key = name.to_owned();
        let ghost e0 = self.entries();
        let ghost n0 = allocation_names(self.allocations@);
        match self.position(&key) {
            Some(i) => {
                let removed = self.allocations.remove(i);
                assert(self.entries() =~= e0.remove(i as int));
                assert(allocation_names(self.allocations@) =~= n0.remove(i as int));
                self.total_allocated = self.total_allocated.saturating_sub(removed.size);
            },
            None => {},
        }
    }

    /// The running total, in bytes.
    pub fn total_allocated(&self) -> (r: usize)
        ensures
            r == self.total(),
    {
        self.total_allocated
    }

    /// The largest running total so far, in bytes.
    pub fn peak_allocated(&self) -> (r: usize)
        ensures
            r == self.peak(),
    {
        self.peak_allocated
    }
}

} // verus!
