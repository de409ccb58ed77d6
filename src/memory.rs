use vstd::prelude::*;

verus! {

/// Policy deciding whether a free chunk may serve a smaller reservation.
#[derive(Clone, Copy, Debug, PartialEq, Eq, Structural)]
pub enum SliceStrategy {
    /// Never reuse a free chunk for a different size.
    Never,
    /// Reuse a chunk when the request fills at least this percentage of it.
    Ratio(u32),
    /// Reuse a chunk when the request is at least this many bytes.
    MinimumSize(usize),
    /// Reuse a chunk when the request is at most this many bytes.
    MaximumSize(usize),
    /// Always reuse a free chunk that is large enough.
    Always,
}

impl SliceStrategy {
    pub open spec fn accepts(self, chunk_size: nat, reserved: nat) -> bool {
        match self {
            SliceStrategy::Never => false,
            SliceStrategy::Ratio(p) => reserved * 100 >= chunk_size * p,
            SliceStrategy::MinimumSize(m) => reserved >= m,
            SliceStrategy::MaximumSize(m) => reserved <= m,
            SliceStrategy::Always => true,
        }
    }

    /// Whether a reservation of `reserved` bytes may be placed in a free chunk of `chunk_size` bytes.
    pub fn can_use_chunk(&self, chunk_size: usize, reserved: usize) -> (r: bool)
        ensures
            r == self.accepts(chunk_size as nat, reserved as nat),
    {
        match self {
            SliceStrategy::Never => false,
            SliceStrategy::Ratio(p) => {
                let lhs: u128 = (reserved as u128) * 100;
                match (chunk_size as u128).checked_mul(*p as u128) {
                    Some(rhs) => lhs >= rhs,
                    None => false,
                }
            },
            SliceStrategy::MinimumSize(m) => reserved >= *m,
            SliceStrategy::MaximumSize(m) => reserved <= *m,
            SliceStrategy::Always => true,
        }
    }
}

/// Policy deciding when free chunks are handed back to the storage.
#[derive(Clone, Copy, Debug, PartialEq, Eq, Structural)]
pub enum DeallocStrategy {
    /// Reclaim free chunks once every `period` reservations.
    PeriodTick { period: usize, state: usize },
    /// Never reclaim free chunks.
    Never,
}

impl DeallocStrategy {
    /// Reclaim free chunks once every `period` reservations.
    pub fn new_period_tick(period: usize) -> (r: DeallocStrategy)
        ensures
            r == (DeallocStrategy::PeriodTick { period, state: 0 }),
    {
        DeallocStrategy::PeriodTick { period, state: 0 }
    }

    /// The strategy after one more tick, and whether that tick reclaims.
    pub open spec fn tick(self) -> (DeallocStrategy, bool) {
        match self {
            DeallocStrategy::PeriodTick { period, state } => {
                if period == 0 {
                    (self, false)
                } else {
                    let next = ((state % period + 1) % (period as int)) as usize;
                    (DeallocStrategy::PeriodTick { period, state: next }, next == 0)
                }
            },
            DeallocStrategy::Never => (self, false),
        }
    }

    /// Counts one reservation and tells whether free chunks are to be reclaimed now.
    /// A period of zero never reclaims.
    pub fn should_dealloc(&mut self) -> (r: bool)
        ensures
            (*final(self), r) == old(self).tick(),
    {
        match self {
            DeallocStrategy::PeriodTick { period, state } => {
                if *period == 0 {
                    false
                } else {
                    let next: usize = (*state % *period + 1) % *period;
                    *state = next;
                    next == 0
                }
            },
            DeallocStrategy::Never => false,
        }
    }
}

/// A reference to `size` bytes at `offset` within one chunk of storage.
#[derive(Clone, Copy, Debug, PartialEq, Eq, Structural)]
pub struct Handle {
    pub chunk: usize,
    pub offset: usize,
    pub size: usize,
}

/// Book-keeping of one storage chunk. Every handle into a chunk belongs to
/// one allocation group, whose handles share the count `refs`.
#[derive(Clone, Copy, Debug, PartialEq, Eq, Structural)]
pub struct Chunk {
    /// Bytes held by the storage for this chunk while it is allocated.
    pub size: usize,
    /// Bytes of the chunk that the current reservation covers.
    pub used: usize,
    /// Handles of the current allocation group still held.
    pub refs: usize,
    /// Whether the storage still holds the chunk's bytes.
    pub allocated: bool,
}

/// Tracks logical buffers over storage chunks: reservation, slicing,
/// reference counts and deferred reclamation.
pub struct MemoryManager {
    chunks: Vec<Chunk>,
    storage: Vec<Vec<u8>>,
    dealloc: DeallocStrategy,
    slice: SliceStrategy,
}

/// Sum of the sizes of the first `n` chunks that are allocated.
pub open spec fn allocated_bytes(chunks: Seq<Chunk>, n: nat) -> nat
    decreases n,
{
    if n == 0 || n > chunks.len() {
        0
    } else {
        allocated_bytes(chunks, (n - 1) as nat) + if chunks[n - 1].allocated {
            chunks[n - 1].size as nat
        } else {
            0
        }
    }
}

/// Sum of the reserved bytes of the first `n` chunks that some handle still holds.
pub open spec fn live_bytes(chunks: Seq<Chunk>, n: nat) -> nat
    decreases n,
{
    if n == 0 || n > chunks.len() {
        0
    } else {
        live_bytes(chunks, (n - 1) as nat) + if chunks[n - 1].refs > 0 {
            chunks[n - 1].used as nat
        } else {
            0
        }
    }
}

/// The chunk-level invariant: held chunks are allocated and their reservation fits.
pub open spec fn chunk_wf(c: Chunk) -> bool {
    (c.refs > 0 ==> c.allocated) && (c.allocated ==> c.used <= c.size)
}

/// The chunks after the first `n` free ones among `oc` were reclaimed.
pub open spec fn reclaimed_chunks(oc: Seq<Chunk>, n: int) -> Seq<Chunk> {
    Seq::new(
        oc.len(),
        |j: int|
            if j < n && oc[j].refs == 0 {
                Chunk { allocated: false, ..oc[j] }
            } else {
                oc[j]
            },
    )
}

/// The storage after the first `n` free chunks among `oc` were reclaimed.
pub open spec fn reclaimed_storage(oc: Seq<Chunk>, os: Seq<Seq<u8>>, n: int) -> Seq<Seq<u8>> {
    Seq::new(
        os.len(),
        |j: int|
            if j < n && oc[j].refs == 0 {
                Seq::empty()
            } else {
                os[j]
            },
    )
}

/// How a reservation of `size` bytes that returned `h` chose its chunk in
/// the manager `before`, leaving `after_len` chunks: it reused the smallest
/// free allocated chunk that the slice strategy accepts, at offset zero,
/// when one existed and no reclamation ran; otherwise it appended a new
/// chunk. Either way no handle held the chunk before.
pub open spec fn fresh_reservation(before: MemoryManager, after_len: nat, h: Handle, size: nat) -> bool {
    let n = before.chunks_view().len();
    &&& h.offset == 0
    &&& h.size == size
    &&& h.chunk >= n ==> h.chunk == n && after_len == n + 1 && (before.dealloc_view().tick().1
        || forall|j: int| !before.fits(j, size))
    &&& h.chunk < n ==> {
        &&& before.chunks_view()[h.chunk as int].refs == 0
        &&& before.fits(h.chunk as int, size)
        &&& !before.dealloc_view().tick().1
        &&& after_len == n
        &&& forall|j: int|
            before.fits(j, size) ==> before.chunks_view()[h.chunk as int].size
                <= #[trigger] before.chunks_view()[j].size
    }
}

/// The chunks after one reference of the group of `h` was dropped.
pub open spec fn released_chunks(chunks: Seq<Chunk>, h: Handle) -> Seq<Chunk> {
    if h.chunk < chunks.len() && chunks[h.chunk as int].refs > 0 {
        chunks.update(
            h.chunk as int,
            Chunk { refs: (chunks[h.chunk as int].refs - 1) as usize, ..chunks[h.chunk as int] },
        )
    } else {
        chunks
    }
}

/// `s` with the bytes from `offset` on replaced by `data`.
pub open spec fn write_at(s: Seq<u8>, offset: int, data: Seq<u8>) -> Seq<u8> {
    Seq::new(
        s.len(),
        |i: int|
            if offset <= i < offset + data.len() {
                data[i - offset]
            } else {
                s[i]
            },
    )
}

/// The storage addresses, as (chunk, byte) pairs, that a handle covers.
pub open spec fn footprint(h: Handle) -> Set<(int, int)> {
    Set::new(|a: (int, int)| a.0 == h.chunk && h.offset <= a.1 < h.offset + h.size)
}

impl MemoryManager {
    pub closed spec fn chunks_view(&self) -> Seq<Chunk> {
        self.chunks@
    }

    /// The bytes that the storage holds, chunk by chunk.
    pub closed spec fn storage_view(&self) -> Seq<Seq<u8>> {
        Seq::new(self.storage@.len(), |i: int| self.storage@[i]@)
    }

    pub closed spec fn dealloc_view(&self) -> DeallocStrategy {
        self.dealloc
    }

    pub closed spec fn slice_view(&self) -> SliceStrategy {
        self.slice
    }

    pub open spec fn wf(&self) -> bool {
        &&& self.chunks_view().len() == self.storage_view().len()
        &&& forall|i: int|
            0 <= i < self.chunks_view().len() ==> chunk_wf(#[trigger] self.chunks_view()[i])
        &&& forall|i: int|
            0 <= i < self.chunks_view().len() ==> (#[trigger] self.storage_view()[i]).len() == (
            if self.chunks_view()[i].allocated {
                self.chunks_view()[i].size as int
            } else {
                0
            })
    }

    /// A handle is live while its allocation group holds a reference and it
    /// lies within the group's reservation.
    pub open spec fn is_live(&self, h: Handle) -> bool {
        &&& h.chunk < self.chunks_view().len()
        &&& self.chunks_view()[h.chunk as int].refs > 0
        &&& h.offset + h.size <= self.chunks_view()[h.chunk as int].used
    }

    /// A chunk that a reservation of `size` bytes may reuse.
    pub open spec fn fits(&self, i: int, size: nat) -> bool {
        let c = self.chunks_view()[i];
        &&& 0 <= i < self.chunks_view().len()
        &&& c.allocated
        &&& c.refs == 0
        &&& size <= c.size
        &&& self.slice_view().accepts(c.size as nat, size)
    }

    /// An empty manager with the given policies.
    pub fn new(dealloc: DeallocStrategy, slice: SliceStrategy) -> (r: MemoryManager)
        ensures
            r.wf(),
            r.chunks_view().len() == 0,
            r.dealloc_view() == dealloc,
            r.slice_view() == slice,
    {
        let r = MemoryManager { chunks: Vec::new(), storage: Vec::new(), dealloc, slice };
        proof {
            assert(r.storage_view().len() == 0);
        }
        r
    }

    /// The smallest free allocated chunk that the slice strategy lets a
    /// reservation of `size` bytes use.
    fn find_free_chunk(&self, size: usize) -> (r: Option<usize>)
        requires
            self.wf(),
        ensures
            r is None ==> forall|j: int| !self.fits(j, size as nat),
            r is Some ==> self.fits(r->0 as int, size as nat),
            r is Some ==> forall|j: int|
                self.fits(j, size as nat) ==> self.chunks_view()[r->0 as int].size
                    <= #[trigger] self.chunks_view()[j].size,
    {
        let mut best: Option<usize> = None;
        let mut i: usize = 0;
        while i < self.chunks.len()
            invariant
                i <= self.chunks@.len(),
                self.chunks@ == self.chunks_view(),
                best is None ==> forall|j: int| 0 <= j < i ==> !self.fits(j, size as nat),
                best is Some ==> best->0 < i && self.fits(best->0 as int, size as nat),
                best is Some ==> forall|j: int|
                    0 <= j < i && self.fits(j, size as nat) ==> self.chunks_view()[best->0 as int].size
                        <= #[trigger] self.chunks_view()[j].size,
            decreases self.chunks@.len() - i,
        {
            let c = self.chunks[i];
            if c.allocated && c.refs == 0 && size <= c.size && self.slice.can_use_chunk(c.size, size) {
                match best {
                    None => {
                        best = Some(i);
                    },
                    Some(b) => {
                        if c.size < self.chunks[b].size {
                            best = Some(i);
                        }
                    },
                }
            }
            i = i + 1;
        }
        best
    }

    /// Hands every free allocated chunk back: its bytes are dropped and the
    /// chunk can no longer be reused.
    fn cleanup(&mut self)
        requires
            old(self).wf(),
        ensures
            final(self).wf(),
            final(self).dealloc_view() == old(self).dealloc_view(),
            final(self).slice_view() == old(self).slice_view(),
            final(self).chunks_view().len() == old(self).chunks_view().len(),
            forall|i: int|
                0 <= i < old(self).chunks_view().len() && #[trigger] old(self).chunks_view()[i].refs
                    > 0 ==> final(self).chunks_view()[i] == old(self).chunks_view()[i]
                    && final(self).storage_view()[i] == old(self).storage_view()[i],
            forall|i: int|
                0 <= i < old(self).chunks_view().len() && #[trigger] old(self).chunks_view()[i].refs
                    == 0 ==> final(self).chunks_view()[i] == (Chunk {
                    allocated: false,
                    ..old(self).chunks_view()[i]
                }),
    {
        let ghost oc = self.chunks_view();
        let ghost os = self.storage_view();
        let mut i: usize = 0;
        while i < self.chunks.len()
            invariant
                self.wf(),
                i <= oc.len(),
                self.dealloc_view() == old(self).dealloc_view(),
                self.slice_view() == old(self).slice_view(),
                oc == old(self).chunks_view(),
                os == old(self).storage_view(),
                self.chunks_view() == reclaimed_chunks(oc, i as int),
                self.storage_view() == reclaimed_storage(oc, os, i as int),
            decreases oc.len() - i,
        {
            let ghost pc = self.chunks_view();
            let ghost ps = self.storage_view();
            let c = self.chunks[i];
            if c.refs == 0 {
                self.chunks.set(i, Chunk { allocated: false, ..c });
                self.storage.set(i, Vec::new());
                proof {
                    assert(self.storage@[i as int]@ =~= Seq::<u8>::empty());
                }
            }
            proof {
                assert(self.chunks_view() =~= reclaimed_chunks(oc, i + 1));
                assert forall|j: int| 0 <= j < os.len() implies #[trigger] self.storage_view()[j]
                    == reclaimed_storage(oc, os, i + 1)[j] by {
                    assert(self.storage_view()[j] == self.storage@[j]@);
                    if j != i {
                        assert(self.storage_view()[j] == reclaimed_storage(oc, os, i as int)[j]);
                    }
                }
                assert(self.storage_view() =~= reclaimed_storage(oc, os, i + 1));
                assert forall|j: int| 0 <= j < self.chunks_view().len() implies chunk_wf(
                    #[trigger] self.chunks_view()[j],
                ) by {}
                assert forall|j: int| 0 <= j < self.chunks_view().len() implies (
                #[trigger] self.storage_view()[j]).len() == (if self.chunks_view()[j].allocated {
                    self.chunks_view()[j].size as int
                } else {
                    0
                }) by {
                    if j != i {
                        assert(self.storage_view()[j] == ps[j]);
                        assert(self.chunks_view()[j] == pc[j]);
                    }
                }
            }
            i = i + 1;
        }
    }

    /// A zeroed buffer of `size` bytes.
    fn zeroed(size: usize) -> (r: Vec<u8>)
        ensures
            r@.len() == size,
    {
        let mut v: Vec<u8> = Vec::new();
        let mut i: usize = 0;
        while i < size
            invariant
                i <= size,
                v@.len() == i,
            decreases size - i,
        {
            v.push(0);
            i = i + 1;
        }
        v
    }

    /// Reserves `size` bytes: counts one tick of the deallocation strategy
    /// (reclaiming free chunks when it says so), then reuses the smallest free
    /// chunk that the slice strategy accepts, or else allocates a new chunk of
    /// exactly `size` bytes. The handle starts a new allocation group with one
    /// reference; chunks held by other groups are left as they were.
    pub fn reserve(&mut self, size: usize) -> (h: Handle)
        requires
            old(self).wf(),
        ensures
            final(self).wf(),
            final(self).is_live(h),
            h.offset == 0,
            h.size == size,
            final(self).chunks_view()[h.chunk as int].refs == 1,
            final(self).chunks_view()[h.chunk as int].used == size,
            h.chunk < old(self).chunks_view().len() ==> old(self).chunks_view()[h.chunk as int].refs
                == 0,
            h.chunk >= old(self).chunks_view().len() ==> final(self).chunks_view()[h.chunk as int].size
                == size,
            h.chunk < old(self).chunks_view().len() ==> old(self).fits(h.chunk as int, size as nat)
                && !old(self).dealloc_view().tick().1,
            h.chunk < old(self).chunks_view().len() ==> forall|j: int|
                old(self).fits(j, size as nat) ==> old(self).chunks_view()[h.chunk as int].size
                    <= #[trigger] old(self).chunks_view()[j].size,
            h.chunk >= old(self).chunks_view().len() ==> h.chunk == old(self).chunks_view().len()
                && final(self).chunks_view().len() == old(self).chunks_view().len() + 1 && (old(
                self,
            ).dealloc_view().tick().1 || forall|j: int| !old(self).fits(j, size as nat)),
            h.chunk < old(self).chunks_view().len() ==> final(self).chunks_view().len()
                == old(self).chunks_view().len(),
            final(self).chunks_view().len() >= old(self).chunks_view().len(),
            fresh_reservation(*old(self), final(self).chunks_view().len(), h, size as nat),
            forall|i: int|
                0 <= i < old(self).chunks_view().len() && #[trigger] old(self).chunks_view()[i].refs
                    > 0 ==> final(self).chunks_view()[i] == old(self).chunks_view()[i]
                    && final(self).storage_view()[i] == old(self).storage_view()[i],
            final(self).dealloc_view() == old(self).dealloc_view().tick().0,
            final(self).slice_view() == old(self).slice_view(),
    {
        let tick = self.dealloc.should_dealloc();
        if tick {
            self.cleanup();
            proof {
                assert forall|j: int| !self.fits(j, size as nat) by {
                    if 0 <= j < self.chunks_view().len() && old(self).chunks_view()[j].refs == 0 {
                        assert(!self.chunks_view()[j].allocated);
                    }
                }
            }
        }
        let ghost mid = self.chunks_view();
        let ghost mid_m = *self;
        proof {
            if !tick {
                assert forall|j: int| #[trigger] mid_m.fits(j, size as nat) == old(self).fits(j, size as nat) by {}
            }
        }
        match self.find_free_chunk(size) {
            Some(i) => {
                let c = self.chunks[i];
                self.chunks.set(i, Chunk { used: size, refs: 1, ..c });
                proof {
                    assert forall|j: int| 0 <= j < self.chunks_view().len() implies chunk_wf(
                        #[trigger] self.chunks_view()[j],
                    ) by {}
                }
                Handle { chunk: i, offset: 0, size }
            },
            None => {
                proof {
                    if !tick {
                        assert forall|j: int| !old(self).fits(j, size as nat) by {
                            assert(!mid_m.fits(j, size as nat));
                        }
                    }
                }
                let bytes = Self::zeroed(size);
                let i = self.chunks.len();
                let ghost mid_storage = self.storage_view();
                self.chunks.push(Chunk { size, used: size, refs: 1, allocated: true });
                self.storage.push(bytes);
                proof {
                    assert(self.storage_view() =~= mid_storage.push(bytes@));
                    assert forall|j: int| 0 <= j < self.chunks_view().len() implies chunk_wf(
                        #[trigger] self.chunks_view()[j],
                    ) by {
                        if j < i {
                            assert(self.chunks_view()[j] == mid[j]);
                        }
                    }
                    assert forall|j: int| 0 <= j < self.chunks_view().len() implies (
                    #[trigger] self.storage_view()[j]).len() == (if self.chunks_view()[j].allocated {
                        self.chunks_view()[j].size as int
                    } else {
                        0
                    }) by {
                        if j < i {
                            assert(self.chunks_view()[j] == mid[j]);
                        }
                    }
                }
                Handle { chunk: i, offset: 0, size }
            },
        }
    }

    /// Drops one reference of the handle's allocation group. When the count
    /// reaches zero the chunk becomes free; its bytes stay until the
    /// deallocation strategy reclaims them. A handle whose group holds no
    /// reference leaves the manager unchanged.
    pub fn release(&mut self, h: Handle)
        requires
            old(self).wf(),
        ensures
            final(self).wf(),
            final(self).chunks_view() == released_chunks(old(self).chunks_view(), h),
            final(self).storage_view() == old(self).storage_view(),
            final(self).dealloc_view() == old(self).dealloc_view(),
            final(self).slice_view() == old(self).slice_view(),
    {
        if h.chunk < self.chunks.len() {
            let c = self.chunks[h.chunk];
            if c.refs > 0 {
                self.chunks.set(h.chunk, Chunk { refs: c.refs - 1, ..c });
                proof {
                    assert forall|j: int| 0 <= j < self.chunks_view().len() implies chunk_wf(
                        #[trigger] self.chunks_view()[j],
                    ) by {}
                }
            }
        }
    }

    /// A handle over `size` bytes at `offset` within `h`, joining the
    /// allocation group of `h` (its count grows by one). `None` when the
    /// count is already at its largest value.
    pub fn slice(&mut self, h: Handle, offset: usize, size: usize) -> (r: Option<Handle>)
        requires
            old(self).wf(),
            old(self).is_live(h),
            offset + size <= h.size,
        ensures
            final(self).wf(),
            final(self).storage_view() == old(self).storage_view(),
            final(self).dealloc_view() == old(self).dealloc_view(),
            final(self).slice_view() == old(self).slice_view(),
            r is Some <==> old(self).chunks_view()[h.chunk as int].refs < usize::MAX,
            r is Some ==> r->0 == (Handle { chunk: h.chunk, offset: (h.offset + offset) as usize, size }),
            r is Some ==> final(self).chunks_view() == old(self).chunks_view().update(
                h.chunk as int,
                Chunk {
                    refs: (old(self).chunks_view()[h.chunk as int].refs + 1) as usize,
                    ..old(self).chunks_view()[h.chunk as int]
                },
            ),
            r is None ==> final(self).chunks_view() == old(self).chunks_view(),
    {
        let c = self.chunks[h.chunk];
        if c.refs == usize::MAX {
            return None;
        }
        self.chunks.set(h.chunk, Chunk { refs: c.refs + 1, ..c });
        proof {
            assert forall|j: int| 0 <= j < self.chunks_view().len() implies chunk_wf(
                #[trigger] self.chunks_view()[j],
            ) by {}
        }
        Some(Handle { chunk: h.chunk, offset: h.offset + offset, size })
    }

    /// Whether the storage holds every byte that `h` covers.
    pub open spec fn in_storage(&self, h: Handle) -> bool {
        &&& h.chunk < self.storage_view().len()
        &&& h.offset + h.size <= self.storage_view()[h.chunk as int].len()
    }

    /// Copies the bytes that `h` covers out of the storage.
    pub fn read_bytes(&self, h: Handle) -> (r: Vec<u8>)
        requires
            self.in_storage(h),
        ensures
            r@ == self.storage_view()[h.chunk as int].subrange(
                h.offset as int,
                h.offset + h.size,
            ),
    {
        let src = &self.storage[h.chunk];
        let n = src.len();
        let mut out: Vec<u8> = Vec::new();
        let mut i: usize = 0;
        while i < h.size
            invariant
                i <= h.size,
                n == src@.len(),
                src@ == self.storage_view()[h.chunk as int],
                h.offset + h.size <= src@.len(),
                out@ == src@.subrange(h.offset as int, h.offset + i),
            decreases h.size - i,
        {
            out.push(src[h.offset + i]);
            i = i + 1;
            proof {
                assert(out@ =~= src@.subrange(h.offset as int, h.offset + i));
            }
        }
        out
    }

    /// Overwrites bytes of chunk `chunk` from `offset` on with `data`.
    pub fn write_bytes(&mut self, chunk: usize, offset: usize, data: &Vec<u8>)
        requires
            old(self).wf(),
            chunk < old(self).storage_view().len(),
            offset + data@.len() <= old(self).storage_view()[chunk as int].len(),
        ensures
            final(self).wf(),
            final(self).chunks_view() == old(self).chunks_view(),
            final(self).storage_view() == old(self).storage_view().update(
                chunk as int,
                write_at(old(self).storage_view()[chunk as int], offset as int, data@),
            ),
            final(self).dealloc_view() == old(self).dealloc_view(),
            final(self).slice_view() == old(self).slice_view(),
    {
        let ghost old_storage = self.storage_view();
        let src = &self.storage[chunk];
        let mut out: Vec<u8> = Vec::new();
        let mut i: usize = 0;
        while i < src.len()
            invariant
                i <= src@.len(),
                src@ == old_storage[chunk as int],
                offset + data@.len() <= src@.len(),
                out@ =~= write_at(src@, offset as int, data@).subrange(0, i as int),
            decreases src@.len() - i,
        {
            if offset <= i && i - offset < data.len() {
                out.push(data[i - offset]);
            } else {
                out.push(src[i]);
            }
            i = i + 1;
            proof {
                assert(out@ =~= write_at(src@, offset as int, data@).subrange(0, i as int));
            }
        }
        proof {
            assert(out@ =~= write_at(src@, offset as int, data@));
        }
        self.storage.set(chunk, out);
        proof {
            assert(self.storage_view() =~= old_storage.update(
                chunk as int,
                write_at(old_storage[chunk as int], offset as int, data@),
            ));
        }
    }

    /// Number of chunks tracked, reclaimed ones included.
    pub fn chunk_count(&self) -> (r: usize)
        ensures
            r == self.chunks_view().len(),
    {
        self.chunks.len()
    }

    /// The book-keeping of chunk `i`.
    pub fn chunk(&self, i: usize) -> (r: Option<Chunk>)
        ensures
            r == (if i < self.chunks_view().len() {
                Some(self.chunks_view()[i as int])
            } else {
                None
            }),
    {
        if i < self.chunks.len() {
            Some(self.chunks[i])
        } else {
            None
        }
    }

    /// Whether the storage holds every byte that `h` covers.
    pub fn holds(&self, h: Handle) -> (r: bool)
        ensures
            r == self.in_storage(h),
    {
        if h.chunk < self.storage.len() {
            let len = self.storage[h.chunk].len();
            h.offset <= len && h.size <= len - h.offset
        } else {
            false
        }
    }
}

/// Every live handle lies within the bytes that the storage holds.
pub proof fn lemma_live_in_storage(m: &MemoryManager, h: Handle)
    requires
        m.wf(),
        m.is_live(h),
    ensures
        m.in_storage(h),
{
    assert(chunk_wf(m.chunks_view()[h.chunk as int]));
}

proof fn lemma_live_within_allocated_prefix(chunks: Seq<Chunk>, n: nat)
    requires
        forall|i: int| 0 <= i < chunks.len() ==> chunk_wf(#[trigger] chunks[i]),
    ensures
        live_bytes(chunks, n) <= allocated_bytes(chunks, n),
    decreases n,
{
    if n > 0 && n <= chunks.len() {
        lemma_live_within_allocated_prefix(chunks, (n - 1) as nat);
        assert(chunk_wf(chunks[n - 1]));
    }
}

/// Whatever sequence of reservations, slicings and releases produced it, a
/// well-formed manager holds no more live bytes than its storage has allocated.
pub proof fn lemma_live_within_allocated(m: &MemoryManager)
    requires
        m.wf(),
    ensures
        live_bytes(m.chunks_view(), m.chunks_view().len()) <= allocated_bytes(
            m.chunks_view(),
            m.chunks_view().len(),
        ),
{
    lemma_live_within_allocated_prefix(m.chunks_view(), m.chunks_view().len());
}

/// Two live handles whose bytes overlap lie in one chunk, so they belong to
/// one allocation group: each is an alias or a slice of the same reservation.
pub proof fn lemma_overlap_is_alias(m: &MemoryManager, h1: Handle, h2: Handle, a: (int, int))
    requires
        m.wf(),
        m.is_live(h1),
        m.is_live(h2),
        footprint(h1).contains(a),
        footprint(h2).contains(a),
    ensures
        h1.chunk == h2.chunk,
{
}

/// Releasing a slice leaves the handle it was cut from live for as long as
/// their shared reference count stays positive: `after` is `before` once
/// `piece` was released.
pub proof fn lemma_release_slice_keeps_owner(
    before: &MemoryManager,
    after: &MemoryManager,
    owner: Handle,
    piece: Handle,
)
    requires
        before.wf(),
        before.is_live(owner),
        before.is_live(piece),
        piece.chunk == owner.chunk,
        after.chunks_view() == released_chunks(before.chunks_view(), piece),
    ensures
        after.is_live(owner) <==> after.chunks_view()[owner.chunk as int].refs > 0,
        after.chunks_view()[owner.chunk as int].refs == before.chunks_view()[owner.chunk as int].refs - 1,
{
}

/// A handle that a reservation returns shares its chunk with no handle
/// that was live before: its bytes overlap none of theirs.
pub proof fn lemma_fresh_overlaps_no_live(
    before: &MemoryManager,
    after_len: nat,
    h: Handle,
    size: nat,
    g: Handle,
)
    requires
        before.wf(),
        fresh_reservation(*before, after_len, h, size),
        before.is_live(g),
    ensures
        g.chunk != h.chunk,
        footprint(g).disjoint(footprint(h)),
{
    assert(footprint(g).disjoint(footprint(h))) by {
        assert forall|a: (int, int)| footprint(g).contains(a) implies !footprint(h).contains(a) by {}
    }
}

} // verus!
