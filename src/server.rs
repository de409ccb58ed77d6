use vstd::prelude::*;

use crate::memory::{lemma_live_in_storage, write_at, Chunk, Handle, MemoryManager};

verus! {

/// A compiled unit of work over an ordered list of handles.
#[derive(Clone, Copy, Debug, PartialEq, Eq, Structural)]
pub enum Kernel {
    /// Leaves every byte as it is.
    Noop,
    /// Sets every byte of the first handle to the value.
    Fill(u8),
    /// Adds the value, wrapping, to every byte of the first handle.
    AddScalar(u8),
    /// Copies the first handle's bytes into the second, as many as both hold.
    Copy,
}

/// A kernel waiting in the batch, with its operands.
pub struct Task {
    pub kernel: Kernel,
    pub handles: Vec<Handle>,
}

/// Whether the storage `s` holds every byte that `h` covers.
pub open spec fn covers(s: Seq<Seq<u8>>, h: Handle) -> bool {
    h.chunk < s.len() && h.offset + h.size <= s[h.chunk as int].len()
}

/// The bytes that `h` covers in `s`.
pub open spec fn bytes_of(s: Seq<Seq<u8>>, h: Handle) -> Seq<u8> {
    s[h.chunk as int].subrange(h.offset as int, h.offset + h.size)
}

/// `s` with the bytes that `h` covers replaced by `data`.
pub open spec fn put(s: Seq<Seq<u8>>, h: Handle, data: Seq<u8>) -> Seq<Seq<u8>> {
    s.update(h.chunk as int, write_at(s[h.chunk as int], h.offset as int, data))
}

/// The storage after running `kernel` on `hs`. Operands that the storage
/// does not hold make the kernel leave it unchanged.
pub open spec fn apply_kernel(s: Seq<Seq<u8>>, kernel: Kernel, hs: Seq<Handle>) -> Seq<Seq<u8>> {
    match kernel {
        Kernel::Noop => s,
        Kernel::Fill(v) => if hs.len() >= 1 && covers(s, hs[0]) {
            put(s, hs[0], Seq::new(hs[0].size as nat, |i: int| v))
        } else {
            s
        },
        Kernel::AddScalar(v) => if hs.len() >= 1 && covers(s, hs[0]) {
            put(
                s,
                hs[0],
                Seq::new(hs[0].size as nat, |i: int| ((bytes_of(s, hs[0])[i] + v) % 256) as u8),
            )
        } else {
            s
        },
        Kernel::Copy => if hs.len() >= 2 && covers(s, hs[0]) && covers(s, hs[1]) {
            let n = if hs[0].size <= hs[1].size {
                hs[0].size
            } else {
                hs[1].size
            };
            put(s, hs[1], bytes_of(s, hs[0]).subrange(0, n as int))
        } else {
            s
        },
    }
}

/// The storage after running every task of `p`, first to last.
pub open spec fn apply_all(s: Seq<Seq<u8>>, p: Seq<(Kernel, Seq<Handle>)>) -> Seq<Seq<u8>>
    decreases p.len(),
{
    if p.len() == 0 {
        s
    } else {
        apply_all(apply_kernel(s, p[0].0, p[0].1), p.drop_first())
    }
}

/// The storage after the first `n` handles of `hs` were overwritten, in
/// order, with the matching entries of `ds`; an entry that is missing or
/// whose length differs from its handle's size leaves that handle as it was.
pub open spec fn put_all(s: Seq<Seq<u8>>, hs: Seq<Handle>, ds: Seq<Seq<u8>>, n: int) -> Seq<Seq<u8>>
    decreases n,
{
    if n <= 0 {
        s
    } else {
        let p = put_all(s, hs, ds, n - 1);
        if n - 1 < ds.len() && n - 1 < hs.len() && ds[n - 1].len() == hs[n - 1].size {
            put(p, hs[n - 1], ds[n - 1])
        } else {
            p
        }
    }
}

/// Whether some task of `p` names chunk `c`.
pub open spec fn touches(p: Seq<(Kernel, Seq<Handle>)>, c: int) -> bool {
    exists|t: int, k: int| 0 <= t < p.len() && 0 <= k < p[t].1.len() && p[t].1[k].chunk == c
}

proof fn lemma_apply_kernel_len(s: Seq<Seq<u8>>, kernel: Kernel, hs: Seq<Handle>)
    ensures
        apply_kernel(s, kernel, hs).len() == s.len(),
        forall|c: int|
            0 <= c < s.len() ==> (#[trigger] apply_kernel(s, kernel, hs)[c]).len() == s[c].len(),
{
}

proof fn lemma_apply_all_len(s: Seq<Seq<u8>>, p: Seq<(Kernel, Seq<Handle>)>)
    ensures
        apply_all(s, p).len() == s.len(),
        forall|c: int| 0 <= c < s.len() ==> (#[trigger] apply_all(s, p)[c]).len() == s[c].len(),
    decreases p.len(),
{
    if p.len() > 0 {
        lemma_apply_kernel_len(s, p[0].0, p[0].1);
        lemma_apply_all_len(apply_kernel(s, p[0].0, p[0].1), p.drop_first());
    }
}

/// Running the tasks then one more is running the longer batch.
proof fn lemma_apply_all_push(
    s: Seq<Seq<u8>>,
    p: Seq<(Kernel, Seq<Handle>)>,
    t: (Kernel, Seq<Handle>),
)
    ensures
        apply_all(s, p.push(t)) == apply_kernel(apply_all(s, p), t.0, t.1),
    decreases p.len(),
{
    if p.len() == 0 {
        assert(p.push(t).drop_first() =~= Seq::<(Kernel, Seq<Handle>)>::empty());
        assert(p.push(t)[0] == t);
        assert(apply_all(apply_kernel(s, t.0, t.1), Seq::<(Kernel, Seq<Handle>)>::empty())
            == apply_kernel(s, t.0, t.1));
    } else {
        assert(p.push(t).drop_first() =~= p.drop_first().push(t));
        assert(p.push(t)[0] == p[0]);
        lemma_apply_all_push(apply_kernel(s, p[0].0, p[0].1), p.drop_first(), t);
    }
}

/// A chunk that no task names keeps its bytes.
proof fn lemma_apply_all_untouched(s: Seq<Seq<u8>>, p: Seq<(Kernel, Seq<Handle>)>, c: int)
    requires
        0 <= c < s.len(),
        !touches(p, c),
    ensures
        apply_all(s, p)[c] == s[c],
    decreases p.len(),
{
    if p.len() > 0 {
        let s1 = apply_kernel(s, p[0].0, p[0].1);
        assert forall|k: int| 0 <= k < p[0].1.len() implies (#[trigger] p[0].1[k]).chunk != c by {
            if p[0].1[k].chunk == c {
                assert(touches(p, c));
            }
        }
        assert(s1[c] == s[c]);
        assert(!touches(p.drop_first(), c)) by {
            if touches(p.drop_first(), c) {
                let (t, k) = choose|t: int, k: int|
                    0 <= t < p.drop_first().len() && 0 <= k < p.drop_first()[t].1.len()
                        && p.drop_first()[t].1[k].chunk == c;
                assert(p[t + 1] == p.drop_first()[t]);
            }
        }
        lemma_apply_kernel_len(s, p[0].0, p[0].1);
        lemma_apply_all_untouched(s1, p.drop_first(), c);
    }
}

/// Two storages that agree on every chunk the tasks name still agree there
/// after the tasks ran.
proof fn lemma_apply_all_agree(s1: Seq<Seq<u8>>, s2: Seq<Seq<u8>>, p: Seq<(Kernel, Seq<Handle>)>)
    requires
        forall|c: int|
            #[trigger] touches(p, c) ==> 0 <= c < s1.len() && 0 <= c < s2.len() && s1[c] == s2[c],
    ensures
        forall|c: int| #[trigger] touches(p, c) ==> apply_all(s1, p)[c] == apply_all(s2, p)[c],
    decreases p.len(),
{
    if p.len() > 0 {
        let hs = p[0].1;
        let k = p[0].0;
        let t1 = apply_kernel(s1, k, hs);
        let t2 = apply_kernel(s2, k, hs);
        assert forall|i: int| 0 <= i < hs.len() implies s1[#[trigger] hs[i].chunk as int]
            == s2[hs[i].chunk as int] && hs[i].chunk < s1.len() && hs[i].chunk < s2.len() by {
            assert(touches(p, hs[i].chunk as int));
        }
        lemma_apply_kernel_len(s1, k, hs);
        lemma_apply_kernel_len(s2, k, hs);
        assert forall|c: int| #[trigger] touches(p.drop_first(), c) implies 0 <= c < t1.len() && 0
            <= c < t2.len() && t1[c] == t2[c] by {
            let (t, j) = choose|t: int, j: int|
                0 <= t < p.drop_first().len() && 0 <= j < p.drop_first()[t].1.len()
                    && p.drop_first()[t].1[j].chunk == c;
            assert(p[t + 1] == p.drop_first()[t]);
            assert(touches(p, c));
            if hs.len() >= 1 {
                assert(s1[hs[0].chunk as int] == s2[hs[0].chunk as int]);
            }
            if hs.len() >= 2 {
                assert(s1[hs[1].chunk as int] == s2[hs[1].chunk as int]);
            }
        }
        lemma_apply_all_agree(t1, t2, p.drop_first());
        assert forall|c: int| #[trigger] touches(p, c) implies apply_all(s1, p)[c] == apply_all(
            s2,
            p,
        )[c] by {
            if touches(p.drop_first(), c) {
            } else {
                assert(t1[c] == t2[c]) by {
                    if hs.len() >= 1 {
                        assert(s1[hs[0].chunk as int] == s2[hs[0].chunk as int]);
                    }
                    if hs.len() >= 2 {
                        assert(s1[hs[1].chunk as int] == s2[hs[1].chunk as int]);
                    }
                }
                lemma_apply_all_untouched(t1, p.drop_first(), c);
                lemma_apply_all_untouched(t2, p.drop_first(), c);
            }
        }
    }
}

/// Runs `kernel` on `hs` against the manager's storage.
fn run_kernel(memory: &mut MemoryManager, kernel: Kernel, hs: &Vec<Handle>)
    requires
        old(memory).wf(),
    ensures
        final(memory).wf(),
        final(memory).chunks_view() == old(memory).chunks_view(),
        final(memory).dealloc_view() == old(memory).dealloc_view(),
        final(memory).slice_view() == old(memory).slice_view(),
        final(memory).storage_view() == apply_kernel(old(memory).storage_view(), kernel, hs@),
{
    match kernel {
        Kernel::Noop => {},
        Kernel::Fill(v) => {
            if hs.len() >= 1 && memory.holds(hs[0]) {
                let h = hs[0];
                let mut data: Vec<u8> = Vec::new();
                let mut i: usize = 0;
                while i < h.size
                    invariant
                        i <= h.size,
                        data@ =~= Seq::new(i as nat, |j: int| v),
                    decreases h.size - i,
                {
                    data.push(v);
                    i = i + 1;
                }
                memory.write_bytes(h.chunk, h.offset, &data);
            }
        },
        Kernel::AddScalar(v) => {
            if hs.len() >= 1 && memory.holds(hs[0]) {
                let h = hs[0];
                let ghost s = memory.storage_view();
                let src = memory.read_bytes(h);
                let mut data: Vec<u8> = Vec::new();
                let mut i: usize = 0;
                while i < h.size
                    invariant
                        i <= h.size,
                        src@ == bytes_of(s, h),
                        src@.len() == h.size,
                        data@ =~= Seq::new(i as nat, |j: int| ((bytes_of(s, h)[j] + v) % 256) as u8),
                    decreases h.size - i,
                {
                    let x: u16 = src[i] as u16 + v as u16;
                    data.push((x % 256) as u8);
                    i = i + 1;
                }
                memory.write_bytes(h.chunk, h.offset, &data);
            }
        },
        Kernel::Copy => {
            if hs.len() >= 2 && memory.holds(hs[0]) && memory.holds(hs[1]) {
                let a = hs[0];
                let b = hs[1];
                let ghost s = memory.storage_view();
                let src = memory.read_bytes(a);
                let n = if a.size <= b.size {
                    a.size
                } else {
                    b.size
                };
                let mut data: Vec<u8> = Vec::new();
                let mut i: usize = 0;
                while i < n
                    invariant
                        i <= n,
                        n <= a.size,
                        src@ == bytes_of(s, a),
                        src@.len() == a.size,
                        data@ =~= bytes_of(s, a).subrange(0, i as int),
                    decreases n - i,
                {
                    data.push(src[i]);
                    i = i + 1;
                }
                memory.write_bytes(b.chunk, b.offset, &data);
            }
        },
    }
}

/// Executes kernels against handles over one memory manager. Submitted
/// kernels wait in a batch that is flushed when it reaches `max_tasks`
/// kernels, or when a read or a sync asks for it.
pub struct Server {
    memory: MemoryManager,
    pending: Vec<Task>,
    max_tasks: usize,
}

impl Server {
    pub closed spec fn memory_view(&self) -> MemoryManager {
        self.memory
    }

    /// The batch, oldest kernel first.
    pub closed spec fn pending_view(&self) -> Seq<(Kernel, Seq<Handle>)> {
        Seq::new(self.pending@.len(), |i: int| (self.pending@[i].kernel, self.pending@[i].handles@))
    }

    pub closed spec fn max_tasks_view(&self) -> usize {
        self.max_tasks
    }

    /// The storage as every submitted kernel sees it: the bytes held, with
    /// the batch run over them in order.
    pub open spec fn contents(&self) -> Seq<Seq<u8>> {
        apply_all(self.memory_view().storage_view(), self.pending_view())
    }

    pub open spec fn chunks(&self) -> Seq<Chunk> {
        self.memory_view().chunks_view()
    }

    pub open spec fn is_live(&self, h: Handle) -> bool {
        self.memory_view().is_live(h)
    }

    /// The bytes that a read of `h` returns.
    pub open spec fn read_view(&self, h: Handle) -> Seq<u8> {
        bytes_of(self.contents(), h)
    }

    /// Every kernel in the batch names only chunks that some handle holds,
    /// so no reservation reuses them while the kernel waits.
    pub open spec fn wf(&self) -> bool {
        &&& self.memory_view().wf()
        &&& forall|c: int| #[trigger]
            touches(self.pending_view(), c) ==> 0 <= c < self.chunks().len() && self.chunks()[c].refs
                > 0
    }

    /// A server over `memory` that flushes its batch at `max_tasks` kernels.
    pub fn new(memory: MemoryManager, max_tasks: usize) -> (r: Server)
        requires
            memory.wf(),
        ensures
            r.wf(),
            r.memory_view() == memory,
            r.pending_view().len() == 0,
            r.max_tasks_view() == max_tasks,
            r.contents() == memory.storage_view(),
    {
        let r = Server { memory, pending: Vec::new(), max_tasks };
        proof {
            assert(r.pending_view() =~= Seq::<(Kernel, Seq<Handle>)>::empty());
        }
        r
    }

    /// The memory manager, for inspection.
    pub fn memory(&self) -> (r: &MemoryManager)
        ensures
            *r == self.memory_view(),
    {
        &self.memory
    }

    /// Number of kernels waiting in the batch.
    pub fn pending_len(&self) -> (r: usize)
        ensures
            r == self.pending_view().len(),
    {
        self.pending.len()
    }

    /// Runs the batch in order and empties it; what any handle reads stays the same.
    pub fn flush(&mut self)
        requires
            old(self).wf(),
        ensures
            final(self).wf(),
            final(self).contents() == old(self).contents(),
            final(self).pending_view().len() == 0,
            final(self).chunks() == old(self).chunks(),
            final(self).max_tasks_view() == old(self).max_tasks_view(),
            final(self).memory_view().dealloc_view() == old(self).memory_view().dealloc_view(),
            final(self).memory_view().slice_view() == old(self).memory_view().slice_view(),
    {
        let ghost target = self.contents();
        let ghost tv = self.pending_view();
        let mut tasks: Vec<Task> = Vec::new();
        std::mem::swap(&mut tasks, &mut self.pending);
        proof {
            assert(self.pending_view() =~= Seq::<(Kernel, Seq<Handle>)>::empty());
            assert(tv.subrange(0, tv.len() as int) =~= tv);
        }
        let mut i: usize = 0;
        while i < tasks.len()
            invariant
                i <= tasks@.len(),
                tv.len() == tasks@.len(),
                forall|j: int|
                    0 <= j < tv.len() ==> #[trigger] tv[j] == (tasks@[j].kernel, tasks@[j].handles@),
                self.memory_view().wf(),
                self.pending_view().len() == 0,
                self.chunks() == old(self).chunks(),
                self.max_tasks_view() == old(self).max_tasks_view(),
                self.memory_view().dealloc_view() == old(self).memory_view().dealloc_view(),
                self.memory_view().slice_view() == old(self).memory_view().slice_view(),
                apply_all(self.memory_view().storage_view(), tv.subrange(i as int, tv.len() as int))
                    == target,
            decreases tasks@.len() - i,
        {
            let ghost rest = tv.subrange(i as int, tv.len() as int);
            proof {
                assert(rest.drop_first() =~= tv.subrange(i + 1, tv.len() as int));
                assert(rest[0] == tv[i as int]);
            }
            run_kernel(&mut self.memory, tasks[i].kernel, &tasks[i].handles);
            i = i + 1;
        }
        proof {
            assert(tv.subrange(i as int, tv.len() as int) =~= Seq::<(Kernel, Seq<Handle>)>::empty());
        }
    }

    /// Appends `kernel` over `handles` to the batch, then flushes the batch
    /// if it has reached `max_tasks` kernels. What every handle reads
    /// afterwards is what it read before, with the kernel run over it.
    pub fn execute(&mut self, kernel: Kernel, handles: &Vec<Handle>)
        requires
            old(self).wf(),
            forall|i: int| 0 <= i < handles@.len() ==> old(self).is_live(#[trigger] handles@[i]),
        ensures
            final(self).wf(),
            final(self).contents() == apply_kernel(old(self).contents(), kernel, handles@),
            final(self).chunks() == old(self).chunks(),
            final(self).pending_view().len() == if old(self).pending_view().len() + 1
                >= old(self).max_tasks_view() {
                0
            } else {
                old(self).pending_view().len() + 1
            },
            final(self).max_tasks_view() == old(self).max_tasks_view(),
    {
        let mut ops: Vec<Handle> = Vec::new();
        let mut i: usize = 0;
        while i < handles.len()
            invariant
                i <= handles@.len(),
                ops@ =~= handles@.subrange(0, i as int),
            decreases handles@.len() - i,
        {
            ops.push(handles[i]);
            i = i + 1;
        }
        let ghost old_pending = self.pending_view();
        self.pending.push(Task { kernel, handles: ops });
        proof {
            let t = (kernel, handles@);
            assert(ops@ =~= handles@);
            assert(self.pending_view() =~= old_pending.push(t));
            lemma_apply_all_push(self.memory_view().storage_view(), old_pending, t);
            assert forall|c: int| #[trigger] touches(self.pending_view(), c) implies 0 <= c
                < self.chunks().len() && self.chunks()[c].refs > 0 by {
                let (ti, k) = choose|ti: int, k: int|
                    0 <= ti < self.pending_view().len() && 0 <= k < self.pending_view()[ti].1.len()
                        && self.pending_view()[ti].1[k].chunk == c;
                if ti < old_pending.len() {
                    assert(old_pending[ti] == self.pending_view()[ti]);
                    assert(touches(old_pending, c));
                } else {
                    assert(old(self).is_live(handles@[k]));
                }
            }
        }
        if self.pending.len() >= self.max_tasks {
            self.flush();
        }
    }

    /// Shows that storage which reservation changed only outside the chunks
    /// the batch names reads the same through the batch on every chunk that
    /// was held before.
    proof fn lemma_reserve_frame(s0: Seq<Seq<u8>>, s2: Seq<Seq<u8>>, p: Seq<(Kernel, Seq<Handle>)>, held: Seq<Chunk>, fresh: int)
        requires
            s0.len() == held.len(),
            s2.len() >= s0.len(),
            forall|c: int| #[trigger] touches(p, c) ==> 0 <= c < held.len() && held[c].refs > 0,
            forall|c: int| 0 <= c < held.len() && #[trigger] held[c].refs > 0 ==> s2[c] == s0[c],
            fresh >= held.len() || held[fresh].refs == 0,
            0 <= fresh < s2.len(),
        ensures
            forall|c: int|
                0 <= c < held.len() && #[trigger] held[c].refs > 0 ==> apply_all(s2, p)[c] == apply_all(s0, p)[c],
            apply_all(s2, p)[fresh] == s2[fresh],
    {
        lemma_apply_all_agree(s0, s2, p);
        assert(!touches(p, fresh));
        lemma_apply_all_untouched(s2, p, fresh);
        assert forall|c: int|
            0 <= c < held.len() && #[trigger] held[c].refs > 0 implies apply_all(s2, p)[c] == apply_all(s0, p)[c] by {
            if !touches(p, c) {
                lemma_apply_all_untouched(s2, p, c);
                lemma_apply_all_untouched(s0, p, c);
            }
        }
    }

    /// Reserves `data.len()` bytes and fills them with `data`. The new handle
    /// reads `data`; what handles held before read stays the same.
    pub fn create(&mut self, data: &Vec<u8>) -> (h: Handle)
        requires
            old(self).wf(),
        ensures
            final(self).wf(),
            final(self).is_live(h),
            h.size == data@.len(),
            final(self).read_view(h) == data@,
            crate::memory::fresh_reservation(
                old(self).memory_view(),
                final(self).chunks().len(),
                h,
                data@.len(),
            ),
            final(self).pending_view() == old(self).pending_view(),
            final(self).chunks()[h.chunk as int].refs == 1,
            final(self).max_tasks_view() == old(self).max_tasks_view(),
            forall|c: int|
                0 <= c < old(self).chunks().len() && #[trigger] old(self).chunks()[c].refs > 0
                    ==> final(self).chunks()[c] == old(self).chunks()[c] && final(self).contents()[c]
                    == old(self).contents()[c],
    {
        let ghost s0 = self.memory_view().storage_view();
        let h = self.memory.reserve(data.len());
        proof {
            lemma_live_in_storage(&self.memory, h);
        }
        let ghost s1 = self.memory_view().storage_view();
        self.memory.write_bytes(h.chunk, 0, data);
        proof {
            let s2 = self.memory_view().storage_view();
            let p = self.pending_view();
            assert forall|c: int|
                0 <= c < old(self).chunks().len() && #[trigger] old(self).chunks()[c].refs > 0 implies s2[c] == s0[c] by {
                assert(s1[c] == s0[c]);
            }
            assert(s0.len() == old(self).chunks().len());
            assert(s2.len() >= s0.len());
            assert(0 <= h.chunk < s2.len());
            assert(self.pending@ == old(self).pending@);
            assert(p == old(self).pending_view());
            assert(forall|c: int| #[trigger] touches(p, c) ==> 0 <= c < old(self).chunks().len() && old(self).chunks()[c].refs > 0);
            Self::lemma_reserve_frame(s0, s2, p, old(self).chunks(), h.chunk as int);
            assert(bytes_of(s2, h) =~= data@);
            assert forall|c: int| #[trigger] touches(p, c) implies 0 <= c < self.chunks().len()
                && self.chunks()[c].refs > 0 by {
                assert(old(self).chunks()[c].refs > 0);
            }
        }
        h
    }

    /// Reserves `size` bytes. What handles held before read stays the same.
    pub fn empty(&mut self, size: usize) -> (h: Handle)
        requires
            old(self).wf(),
        ensures
            final(self).wf(),
            final(self).is_live(h),
            h.size == size,
            crate::memory::fresh_reservation(
                old(self).memory_view(),
                final(self).chunks().len(),
                h,
                size as nat,
            ),
            final(self).pending_view() == old(self).pending_view(),
            final(self).chunks()[h.chunk as int].refs == 1,
            final(self).max_tasks_view() == old(self).max_tasks_view(),
            forall|c: int|
                0 <= c < old(self).chunks().len() && #[trigger] old(self).chunks()[c].refs > 0
                    ==> final(self).chunks()[c] == old(self).chunks()[c] && final(self).contents()[c]
                    == old(self).contents()[c],
    {
        let ghost s0 = self.memory_view().storage_view();
        let h = self.memory.reserve(size);
        proof {
            let s2 = self.memory_view().storage_view();
            let p = self.pending_view();
            assert(s0.len() == old(self).chunks().len());
            assert(s2.len() >= s0.len());
            assert(0 <= h.chunk < s2.len());
            assert(self.pending@ == old(self).pending@);
            assert(p == old(self).pending_view());
            assert(forall|c: int| #[trigger] touches(p, c) ==> 0 <= c < old(self).chunks().len() && old(self).chunks()[c].refs > 0);
            Self::lemma_reserve_frame(s0, s2, p, old(self).chunks(), h.chunk as int);
            assert forall|c: int| #[trigger] touches(p, c) implies 0 <= c < self.chunks().len()
                && self.chunks()[c].refs > 0 by {
                assert(old(self).chunks()[c].refs > 0);
            }
        }
        h
    }

    /// Runs the batch, then returns the bytes that `h` covers.
    pub fn read(&mut self, h: Handle) -> (r: Vec<u8>)
        requires
            old(self).wf(),
            old(self).is_live(h),
        ensures
            final(self).wf(),
            r@ == old(self).read_view(h),
            final(self).contents() == old(self).contents(),
            final(self).chunks() == old(self).chunks(),
            final(self).pending_view().len() == 0,
            final(self).max_tasks_view() == old(self).max_tasks_view(),
    {
        self.flush();
        proof {
            lemma_live_in_storage(&self.memory, h);
            assert(self.pending_view() =~= Seq::<(Kernel, Seq<Handle>)>::empty());
        }
        self.memory.read_bytes(h)
    }

    /// Runs the batch and waits for it to finish.
    pub fn sync(&mut self)
        requires
            old(self).wf(),
        ensures
            final(self).wf(),
            final(self).contents() == old(self).contents(),
            final(self).chunks() == old(self).chunks(),
            final(self).pending_view().len() == 0,
            final(self).max_tasks_view() == old(self).max_tasks_view(),
    {
        self.flush();
    }

    /// Drops one reference of the allocation group of `h`. A batch that is
    /// waiting runs first, so no kernel in it outlives the memory it names.
    pub fn release(&mut self, h: Handle)
        requires
            old(self).wf(),
        ensures
            final(self).wf(),
            final(self).contents() == old(self).contents(),
            final(self).chunks() == crate::memory::released_chunks(old(self).chunks(), h),
            final(self).max_tasks_view() == old(self).max_tasks_view(),
    {
        if self.pending.len() > 0 {
            self.flush();
        }
        proof {
            assert(self.pending_view().len() == 0);
            assert(self.pending_view() =~= Seq::<(Kernel, Seq<Handle>)>::empty());
        }
        self.memory.release(h);
        proof {
            assert(self.pending_view() =~= Seq::<(Kernel, Seq<Handle>)>::empty());
            assert forall|c: int| #[trigger] touches(self.pending_view(), c) implies false by {}
        }
    }

    /// A handle over `size` bytes at `offset` within `h`, sharing its
    /// allocation group; `None` when the group's count cannot grow.
    pub fn slice(&mut self, h: Handle, offset: usize, size: usize) -> (r: Option<Handle>)
        requires
            old(self).wf(),
            old(self).is_live(h),
            offset + size <= h.size,
        ensures
            final(self).wf(),
            final(self).contents() == old(self).contents(),
            final(self).max_tasks_view() == old(self).max_tasks_view(),
            r is Some <==> old(self).chunks()[h.chunk as int].refs < usize::MAX,
            r is Some ==> r->0 == (Handle { chunk: h.chunk, offset: (h.offset + offset) as usize, size }),
            r is Some ==> final(self).is_live(r->0) && final(self).is_live(h),
            r is Some ==> final(self).chunks()[h.chunk as int].refs == old(self).chunks()[h.chunk as int].refs + 1,
            r is None ==> final(self).chunks() == old(self).chunks(),
    {
        let r = self.memory.slice(h, offset, size);
        proof {
            assert forall|c: int| #[trigger] touches(self.pending_view(), c) implies 0 <= c
                < self.chunks().len() && self.chunks()[c].refs > 0 by {
                assert(touches(old(self).pending_view(), c));
            }
        }
        r
    }

    /// Runs the batch, then overwrites the bytes that `h` covers with `data`.
    pub fn write(&mut self, h: Handle, data: &Vec<u8>)
        requires
            old(self).wf(),
            old(self).is_live(h),
            data@.len() == h.size,
        ensures
            final(self).wf(),
            final(self).contents() == put(old(self).contents(), h, data@),
            final(self).chunks() == old(self).chunks(),
            final(self).pending_view().len() == 0,
            final(self).max_tasks_view() == old(self).max_tasks_view(),
    {
        self.flush();
        proof {
            lemma_live_in_storage(&self.memory, h);
            assert(self.pending_view() =~= Seq::<(Kernel, Seq<Handle>)>::empty());
        }
        self.memory.write_bytes(h.chunk, h.offset, data);
        proof {
            assert(self.pending_view() =~= Seq::<(Kernel, Seq<Handle>)>::empty());
        }
    }
}

/// Kernels take effect in the order they were submitted: when a fill of `a`
/// is followed by a copy from `a` into `b`, what `b` then reads begins with
/// the filled bytes, not with what `a` held before.
pub proof fn lemma_fill_then_copy(
    c0: Seq<Seq<u8>>,
    c1: Seq<Seq<u8>>,
    c2: Seq<Seq<u8>>,
    a: Handle,
    b: Handle,
    v: u8,
)
    requires
        covers(c0, a),
        covers(c0, b),
        a.chunk != b.chunk,
        a.size <= b.size,
        c1 == apply_kernel(c0, Kernel::Fill(v), seq![a]),
        c2 == apply_kernel(c1, Kernel::Copy, seq![a, b]),
    ensures
        bytes_of(c2, b).subrange(0, a.size as int) == Seq::new(a.size as nat, |i: int| v),
{
    let filled = Seq::new(a.size as nat, |i: int| v);
    assert(c1 == put(c0, a, filled));
    assert(c1[b.chunk as int] == c0[b.chunk as int]);
    assert(bytes_of(c1, a) =~= filled);
    assert(covers(c1, a) && covers(c1, b));
    assert(c2 == put(c1, b, bytes_of(c1, a).subrange(0, a.size as int)));
    assert(bytes_of(c2, b).subrange(0, a.size as int) =~= filled);
}

} // verus!
