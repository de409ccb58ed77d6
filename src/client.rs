use vstd::prelude::*;

use crate::memory::Handle;
use crate::server::{apply_kernel, put_all, Kernel, Server};
use crate::tune::{autotune_step, AutotuneOperationSet, Tuner};

verus! {

/// The bytes each buffer of `v` holds.
pub open spec fn byte_views(v: Seq<Vec<u8>>) -> Seq<Seq<u8>> {
    Seq::new(v.len(), |i: int| v[i]@)
}

/// The entry point to ask a server for work: it forwards reads, writes and
/// kernels to the server and picks kernel variants through its tuner.
pub struct ComputeClient {
    server: Server,
    tuner: Tuner,
}

impl ComputeClient {
    pub closed spec fn server_view(&self) -> Server {
        self.server
    }

    pub closed spec fn tuner_view(&self) -> Tuner {
        self.tuner
    }

    pub open spec fn wf(&self) -> bool {
        self.server_view().wf()
    }

    /// Create a new client.
    pub fn new(server: Server, tuner: Tuner) -> (r: ComputeClient)
        requires
            server.wf(),
        ensures
            r.wf(),
            r.server_view() == server,
            r.tuner_view() == tuner,
    {
        ComputeClient { server, tuner }
    }

    /// Given a handle, returns owned resource as bytes.
    pub fn read(&mut self, handle: Handle) -> (r: Vec<u8>)
        requires
            old(self).wf(),
            old(self).server_view().is_live(handle),
        ensures
            final(self).wf(),
            r@ == old(self).server_view().read_view(handle),
            final(self).server_view().pending_view().len() == 0,
            final(self).server_view().contents() == old(self).server_view().contents(),
            final(self).server_view().chunks() == old(self).server_view().chunks(),
            final(self).tuner_view() == old(self).tuner_view(),
    {
        self.server.read(handle)
    }

    /// Given a resource, stores it and returns the resource handle.
    pub fn create(&mut self, data: &Vec<u8>) -> (h: Handle)
        requires
            old(self).wf(),
        ensures
            final(self).wf(),
            final(self).server_view().is_live(h),
            h.size == data@.len(),
            final(self).server_view().read_view(h) == data@,
            crate::memory::fresh_reservation(
                old(self).server_view().memory_view(),
                final(self).server_view().chunks().len(),
                h,
                data@.len(),
            ),
            final(self).tuner_view() == old(self).tuner_view(),
            forall|c: int|
                0 <= c < old(self).server_view().chunks().len() && #[trigger] old(
                    self,
                ).server_view().chunks()[c].refs > 0 ==> final(self).server_view().chunks()[c] == old(
                    self,
                ).server_view().chunks()[c] && final(self).server_view().contents()[c] == old(
                    self,
                ).server_view().contents()[c],
    {
        self.server.create(data)
    }

    /// Reserves `size` bytes in the storage, and returns a handle over them.
    pub fn empty(&mut self, size: usize) -> (h: Handle)
        requires
            old(self).wf(),
        ensures
            final(self).wf(),
            final(self).server_view().is_live(h),
            h.size == size,
            crate::memory::fresh_reservation(
                old(self).server_view().memory_view(),
                final(self).server_view().chunks().len(),
                h,
                size as nat,
            ),
            final(self).tuner_view() == old(self).tuner_view(),
            forall|c: int|
                0 <= c < old(self).server_view().chunks().len() && #[trigger] old(
                    self,
                ).server_view().chunks()[c].refs > 0 ==> final(self).server_view().chunks()[c] == old(
                    self,
                ).server_view().chunks()[c] && final(self).server_view().contents()[c] == old(
                    self,
                ).server_view().contents()[c],
    {
        self.server.empty(size)
    }

    /// Executes the `kernel` over the given `handles`.
    pub fn execute(&mut self, kernel: Kernel, handles: &Vec<Handle>)
        requires
            old(self).wf(),
            forall|i: int|
                0 <= i < handles@.len() ==> old(self).server_view().is_live(#[trigger] handles@[i]),
        ensures
            final(self).wf(),
            final(self).server_view().contents() == apply_kernel(
                old(self).server_view().contents(),
                kernel,
                handles@,
            ),
            final(self).server_view().chunks() == old(self).server_view().chunks(),
            final(self).server_view().pending_view().len() == if old(self).server_view().pending_view().len()
                + 1 >= old(self).server_view().max_tasks_view() {
                0
            } else {
                old(self).server_view().pending_view().len() + 1
            },
            final(self).tuner_view() == old(self).tuner_view(),
    {
        self.server.execute(kernel, handles)
    }

    /// Wait for the completion of every task in the server.
    pub fn sync(&mut self)
        requires
            old(self).wf(),
        ensures
            final(self).wf(),
            final(self).server_view().contents() == old(self).server_view().contents(),
            final(self).server_view().chunks() == old(self).server_view().chunks(),
            final(self).server_view().pending_view().len() == 0,
            final(self).tuner_view() == old(self).tuner_view(),
    {
        self.server.sync()
    }

    /// Drops one reference of the allocation group of `handle`.
    pub fn release(&mut self, handle: Handle)
        requires
            old(self).wf(),
        ensures
            final(self).wf(),
            final(self).server_view().contents() == old(self).server_view().contents(),
            final(self).server_view().chunks() == crate::memory::released_chunks(
                old(self).server_view().chunks(),
                handle,
            ),
            final(self).tuner_view() == old(self).tuner_view(),
    {
        self.server.release(handle)
    }

    /// Executes the fastest kernel in the autotune operation, using (cached)
    /// runtime benchmarks, and returns the index of the variant that ran.
    pub fn autotune_execute<O: AutotuneOperationSet>(&mut self, autotune_operation_set: &O) -> (r:
        usize)
        requires
            old(self).wf(),
            old(self).tuner_view().runs_view() < u64::MAX,
        ensures
            final(self).wf(),
            autotune_step(
                old(self).tuner_view().view(),
                final(self).tuner_view().view(),
                autotune_operation_set.key_view(),
                r,
                autotune_operation_set.count_view(),
                autotune_operation_set.fallback_view(),
            ),
    {
        let key = autotune_operation_set.key();
        let count = autotune_operation_set.variant_count();
        let fallback = autotune_operation_set.fallback_index();
        self.tuner.execute_autotune(key, count, fallback, autotune_operation_set, &mut self.server)
    }

    /// Get the fastest kernel for the given autotune key if it exists.
    pub fn autotune_result(&self, key: u64) -> (r: Option<usize>)
        ensures
            r == (if self.tuner_view().cache_view().contains_key(key) {
                Some(self.tuner_view().cache_view()[key])
            } else {
                None
            }),
    {
        self.tuner.autotune_fastest(key)
    }

    /// The server, for inspection.
    pub fn server(&self) -> (r: &Server)
        ensures
            *r == self.server_view(),
    {
        &self.server
    }

    /// Number of benchmarking passes the tuner has made.
    pub fn benchmark_runs(&self) -> (r: u64)
        ensures
            r == self.tuner_view().runs_view(),
    {
        self.tuner.benchmark_runs()
    }

    /// Runs the batch, then hands `f` the bytes of `handles`, in order. `f`
    /// returns new bytes for the handles, in the same order, and a value
    /// that is returned. Each returned entry whose length is its handle's
    /// size is written back, first to last; the others leave their handle
    /// as it was.
    pub fn run_custom_command<R, F: FnOnce(Vec<Vec<u8>>) -> (Vec<Vec<u8>>, R)>(
        &mut self,
        f: F,
        handles: &Vec<Handle>,
    ) -> (r: R)
        requires
            old(self).wf(),
            forall|i: int|
                0 <= i < handles@.len() ==> old(self).server_view().is_live(#[trigger] handles@[i]),
            forall|bytes: Vec<Vec<u8>>| f.requires((bytes,)),
        ensures
            final(self).wf(),
            final(self).server_view().chunks() == old(self).server_view().chunks(),
            final(self).tuner_view() == old(self).tuner_view(),
            exists|bytes: Vec<Vec<u8>>, out: Vec<Vec<u8>>|
                #[trigger] f.ensures((bytes,), (out, r)) && bytes@.len() == handles@.len() && (
                forall|i: int|
                    0 <= i < handles@.len() ==> (#[trigger] bytes@[i])@ == old(
                        self,
                    ).server_view().read_view(handles@[i])) && final(self).server_view().contents()
                    == put_all(
                    old(self).server_view().contents(),
                    handles@,
                    byte_views(out@),
                    handles@.len() as int,
                ),
    {
        let mut bytes: Vec<Vec<u8>> = Vec::new();
        let mut i: usize = 0;
        while i < handles.len()
            invariant
                i <= handles@.len(),
                self.wf(),
                self.server_view().contents() == old(self).server_view().contents(),
                self.server_view().chunks() == old(self).server_view().chunks(),
                self.tuner_view() == old(self).tuner_view(),
                bytes@.len() == i,
                forall|j: int|
                    0 <= j < handles@.len() ==> self.server_view().is_live(#[trigger] handles@[j]),
                forall|j: int|
                    0 <= j < i ==> (#[trigger] bytes@[j])@ == old(self).server_view().read_view(
                        handles@[j],
                    ),
            decreases handles@.len() - i,
        {
            let b = self.server.read(handles[i]);
            bytes.push(b);
            i = i + 1;
        }
        let ghost given = bytes;
        let (out, r) = f(bytes);
        let ghost c0 = self.server_view().contents();
        let mut j: usize = 0;
        while j < handles.len()
            invariant
                j <= handles@.len(),
                self.wf(),
                self.server_view().chunks() == old(self).server_view().chunks(),
                self.tuner_view() == old(self).tuner_view(),
                forall|k: int|
                    0 <= k < handles@.len() ==> self.server_view().is_live(#[trigger] handles@[k]),
                self.server_view().contents() == put_all(c0, handles@, byte_views(out@), j as int),
            decreases handles@.len() - j,
        {
            if j < out.len() && out[j].len() == handles[j].size {
                self.server.write(handles[j], &out[j]);
            }
            j = j + 1;
        }
        proof {
            assert(f.ensures((given,), (out, r)));
        }
        r
    }
}

} // verus!
