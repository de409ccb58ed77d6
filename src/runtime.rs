use vstd::prelude::*;

use crate::client::ComputeClient;
use crate::memory::{DeallocStrategy, MemoryManager, SliceStrategy};
use crate::server::Server;
use crate::tune::Tuner;

verus! {

/// The device a client runs on.
#[derive(Clone, Copy, Debug, PartialEq, Eq, Structural)]
pub enum WgpuDevice {
    /// The discrete GPU with this index.
    DiscreteGpu(usize),
    /// The integrated GPU with this index.
    IntegratedGpu(usize),
    /// The virtual GPU with this index.
    VirtualGpu(usize),
    /// The CPU.
    Cpu,
    /// The most performant adapter found.
    BestAvailable,
    /// A device set up by the caller and registered under this id.
    Existing(usize),
}

/// The kind of an adapter that the graphics API reports.
#[derive(Clone, Copy, Debug, PartialEq, Eq, Structural)]
pub enum AdapterKind {
    Other,
    IntegratedGpu,
    DiscreteGpu,
    VirtualGpu,
    Cpu,
}

/// Why no adapter could be chosen.
#[derive(Clone, Copy, Debug, PartialEq, Eq, Structural)]
pub enum SelectError {
    /// An existing device cannot be set up automatically: register it instead.
    ExistingDevice,
    /// No discrete GPU at the requested index.
    NoDiscreteGpu,
    /// No integrated GPU at the requested index.
    NoIntegratedGpu,
    /// No virtual GPU at the requested index.
    NoVirtualGpu,
    /// No CPU adapter.
    NoCpu,
    /// No adapter at all.
    NoAdapter,
}

/// Whether an adapter of kind `k` (not `Other`) serves `device`.
pub open spec fn serves(device: WgpuDevice, k: AdapterKind) -> bool {
    match device {
        WgpuDevice::DiscreteGpu(_) => k == AdapterKind::DiscreteGpu,
        WgpuDevice::IntegratedGpu(_) => k == AdapterKind::IntegratedGpu,
        WgpuDevice::VirtualGpu(_) => k == AdapterKind::VirtualGpu,
        WgpuDevice::Cpu => k == AdapterKind::Cpu,
        WgpuDevice::BestAvailable => true,
        WgpuDevice::Existing(_) => false,
    }
}

/// Indices below `n` of the adapters, not of kind `Other`, that serve `device`, in order.
pub open spec fn matching(kinds: Seq<AdapterKind>, device: WgpuDevice, n: int) -> Seq<usize>
    decreases n,
{
    if n <= 0 || n > kinds.len() {
        Seq::empty()
    } else if kinds[n - 1] != AdapterKind::Other && serves(device, kinds[n - 1]) {
        matching(kinds, device, n - 1).push((n - 1) as usize)
    } else {
        matching(kinds, device, n - 1)
    }
}

/// Indices below `n` of the adapters of kind `Other`, in order.
pub open spec fn others(kinds: Seq<AdapterKind>, n: int) -> Seq<usize>
    decreases n,
{
    if n <= 0 || n > kinds.len() {
        Seq::empty()
    } else if kinds[n - 1] == AdapterKind::Other {
        others(kinds, n - 1).push((n - 1) as usize)
    } else {
        others(kinds, n - 1)
    }
}

/// How much an adapter kind is preferred when any will do.
pub open spec fn score(k: AdapterKind) -> int {
    match k {
        AdapterKind::DiscreteGpu => 5,
        AdapterKind::Other => 4,
        AdapterKind::IntegratedGpu => 3,
        AdapterKind::VirtualGpu => 2,
        AdapterKind::Cpu => 1,
    }
}

/// Whether position `j` of `cands` holds the first adapter of highest score.
pub open spec fn is_best(kinds: Seq<AdapterKind>, cands: Seq<usize>, j: int) -> bool {
    &&& 0 <= j < cands.len()
    &&& forall|k: int| 0 <= k < cands.len() ==> score(kinds[#[trigger] cands[k] as int]) <= score(kinds[cands[j] as int])
    &&& forall|k: int| 0 <= k < j ==> score(kinds[#[trigger] cands[k] as int]) < score(kinds[cands[j] as int])
}

/// The error of a numbered device with no adapter at its index.
pub open spec fn missing(device: WgpuDevice) -> SelectError {
    match device {
        WgpuDevice::DiscreteGpu(_) => SelectError::NoDiscreteGpu,
        WgpuDevice::IntegratedGpu(_) => SelectError::NoIntegratedGpu,
        WgpuDevice::VirtualGpu(_) => SelectError::NoVirtualGpu,
        WgpuDevice::Cpu => SelectError::NoCpu,
        _ => SelectError::NoAdapter,
    }
}

/// The index a numbered device asks for; the CPU is number zero.
pub open spec fn number(device: WgpuDevice) -> int {
    match device {
        WgpuDevice::DiscreteGpu(n) => n as int,
        WgpuDevice::IntegratedGpu(n) => n as int,
        WgpuDevice::VirtualGpu(n) => n as int,
        _ => 0,
    }
}

proof fn lemma_partition(kinds: Seq<AdapterKind>, device: WgpuDevice, n: int)
    requires
        0 <= n <= kinds.len(),
    ensures
        matching(kinds, device, n).len() + others(kinds, n).len() <= n,
        forall|q: int|
            0 <= q < matching(kinds, device, n).len() ==> #[trigger] matching(kinds, device, n)[q] < n,
        forall|q: int| 0 <= q < others(kinds, n).len() ==> #[trigger] others(kinds, n)[q] < n,
    decreases n,
{
    if n > 0 {
        lemma_partition(kinds, device, n - 1);
    }
}

fn serves_exec(device: WgpuDevice, k: AdapterKind) -> (r: bool)
    ensures
        r == serves(device, k),
{
    match device {
        WgpuDevice::DiscreteGpu(_) => k == AdapterKind::DiscreteGpu,
        WgpuDevice::IntegratedGpu(_) => k == AdapterKind::IntegratedGpu,
        WgpuDevice::VirtualGpu(_) => k == AdapterKind::VirtualGpu,
        WgpuDevice::Cpu => k == AdapterKind::Cpu,
        WgpuDevice::BestAvailable => true,
        WgpuDevice::Existing(_) => false,
    }
}

fn score_exec(k: AdapterKind) -> (r: u8)
    ensures
        r as int == score(k),
{
    match k {
        AdapterKind::DiscreteGpu => 5,
        AdapterKind::Other => 4,
        AdapterKind::IntegratedGpu => 3,
        AdapterKind::VirtualGpu => 2,
        AdapterKind::Cpu => 1,
    }
}

/// Chooses, among the adapters of the given kinds in enumeration order, the
/// one for `device`, and returns its position. Adapters of kind `Other` are
/// held apart. A numbered device takes the adapter at its number among those
/// of its kind, or else at its number among the `Other` ones; the CPU is
/// number zero. `BestAvailable` takes the first adapter of highest score,
/// looking at the others after the rest. An existing device is refused.
pub fn select_adapter(device: WgpuDevice, kinds: &Vec<AdapterKind>) -> (r: Result<usize, SelectError>)
    ensures
        ({
            let m = matching(kinds@, device, kinds@.len() as int);
            let o = others(kinds@, kinds@.len() as int);
            let n = number(device);
            match device {
                WgpuDevice::Existing(_) => r == Err::<usize, SelectError>(SelectError::ExistingDevice),
                WgpuDevice::BestAvailable => match r {
                    Ok(i) => exists|j: int| is_best(kinds@, m + o, j) && (m + o)[j] == i,
                    Err(e) => e == SelectError::NoAdapter && m.len() + o.len() == 0,
                },
                _ => r == if n < m.len() {
                    Ok::<usize, SelectError>(m[n])
                } else if n < o.len() {
                    Ok(o[n])
                } else {
                    Err(missing(device))
                },
            }
        }),
{
    if let WgpuDevice::Existing(_) = device {
        return Err(SelectError::ExistingDevice);
    }
    let mut adapters: Vec<usize> = Vec::new();
    let mut adapters_other: Vec<usize> = Vec::new();
    let mut i: usize = 0;
    while i < kinds.len()
        invariant
            i <= kinds@.len(),
            adapters@ == matching(kinds@, device, i as int),
            adapters_other@ == others(kinds@, i as int),
        decreases kinds@.len() - i,
    {
        let k = kinds[i];
        if k == AdapterKind::Other {
            adapters_other.push(i);
        } else if serves_exec(device, k) {
            adapters.push(i);
        }
        i = i + 1;
    }
    proof {
        lemma_partition(kinds@, device, kinds@.len() as int);
    }
    let num: usize = match device {
        WgpuDevice::DiscreteGpu(n) => n,
        WgpuDevice::IntegratedGpu(n) => n,
        WgpuDevice::VirtualGpu(n) => n,
        _ => 0,
    };
    match device {
        WgpuDevice::BestAvailable => {
            let ghost cands = adapters@ + adapters_other@;
            let total = adapters.len() + adapters_other.len();
            proof {
                assert forall|q: int| 0 <= q < cands.len() implies cands[q] < kinds@.len() by {
                    if q >= adapters@.len() {
                        assert(cands[q] == adapters_other@[q - adapters@.len()]);
                    }
                }
            }
            let mut best: Option<usize> = None;
            let mut best_score: u8 = 0;
            let mut j: usize = 0;
            while j < total
                invariant
                    j <= total,
                    total == cands.len(),
                    cands == adapters@ + adapters_other@,
                    forall|q: int| 0 <= q < cands.len() ==> cands[q] < kinds@.len(),
                    best is None ==> j == 0,
                    best is Some ==> best->0 < j && is_best(kinds@, cands.subrange(0, j as int), best->0 as int)
                        && best_score as int == score(kinds@[cands[best->0 as int] as int]),
                decreases total - j,
            {
                let idx = if j < adapters.len() {
                    adapters[j]
                } else {
                    adapters_other[j - adapters.len()]
                };
                proof {
                    assert(idx == cands[j as int]);
                }
                let s = score_exec(kinds[idx]);
                let ghost prev = cands.subrange(0, j as int);
                let ghost next = cands.subrange(0, j + 1);
                proof {
                    assert forall|q: int| 0 <= q < j implies next[q] == prev[q] by {}
                }
                if best.is_none() || s > best_score {
                    best = Some(j);
                    best_score = s;
                }
                j = j + 1;
            }
            match best {
                Some(b) => {
                    proof {
                        assert(cands.subrange(0, j as int) =~= cands);
                    }
                    if b < adapters.len() {
                        Ok(adapters[b])
                    } else {
                        Ok(adapters_other[b - adapters.len()])
                    }
                },
                None => Err(SelectError::NoAdapter),
            }
        },
        _ => {
            if num < adapters.len() {
                Ok(adapters[num])
            } else if num < adapters_other.len() {
                Ok(adapters_other[num])
            } else {
                Err(
                    match device {
                        WgpuDevice::DiscreteGpu(_) => SelectError::NoDiscreteGpu,
                        WgpuDevice::IntegratedGpu(_) => SelectError::NoIntegratedGpu,
                        WgpuDevice::VirtualGpu(_) => SelectError::NoVirtualGpu,
                        WgpuDevice::Cpu => SelectError::NoCpu,
                        _ => SelectError::NoAdapter,
                    },
                )
            }
        },
    }
}

/// The values that control how a runtime's memory and batching behave.
#[derive(Clone, Copy, Debug, PartialEq, Eq, Structural)]
pub struct RuntimeOptions {
    /// How the buffers are deallocated.
    pub dealloc_strategy: DeallocStrategy,
    /// Control the slicing strategy.
    pub slice_strategy: SliceStrategy,
    /// Control the amount of compute tasks to be aggregated into a single GPU command.
    pub max_tasks: usize,
}

/// Percentage of a free chunk that a reservation must fill to reuse it.
pub const DEFAULT_SLICE_RATIO: u32 = 80;

impl RuntimeOptions {
    /// The options for batches of `max_tasks` kernels: free chunks are
    /// reclaimed every `2 * max_tasks` reservations, and a free chunk is
    /// reused by a reservation that fills at least 80% of it. `None` when
    /// `2 * max_tasks` does not fit in a `usize`.
    pub fn with_max_tasks(max_tasks: usize) -> (r: Option<RuntimeOptions>)
        ensures
            r is None <==> 2 * max_tasks > usize::MAX,
            r is Some ==> r->0 == (RuntimeOptions {
                dealloc_strategy: DeallocStrategy::PeriodTick { period: (2 * max_tasks) as usize, state: 0 },
                slice_strategy: SliceStrategy::Ratio(DEFAULT_SLICE_RATIO),
                max_tasks,
            }),
    {
        match max_tasks.checked_mul(2) {
            Some(period) => Some(
                RuntimeOptions {
                    dealloc_strategy: DeallocStrategy::new_period_tick(period),
                    slice_strategy: SliceStrategy::Ratio(DEFAULT_SLICE_RATIO),
                    max_tasks,
                },
            ),
            None => None,
        }
    }
}

impl Default for RuntimeOptions {
    /// Batches of 64 kernels, with the policies of `with_max_tasks`.
    fn default() -> (r: RuntimeOptions)
        ensures
            r == (RuntimeOptions {
                dealloc_strategy: DeallocStrategy::PeriodTick { period: 128, state: 0 },
                slice_strategy: SliceStrategy::Ratio(DEFAULT_SLICE_RATIO),
                max_tasks: crate::DEFAULT_MAX_TASKS,
            }),
    {
        RuntimeOptions {
            dealloc_strategy: DeallocStrategy::new_period_tick(2 * crate::DEFAULT_MAX_TASKS),
            slice_strategy: SliceStrategy::Ratio(DEFAULT_SLICE_RATIO),
            max_tasks: crate::DEFAULT_MAX_TASKS,
        }
    }
}

/// A client over a fresh memory manager and server built from `options`,
/// with an empty tuner for the device named `tuner_device_id`.
pub fn create_client(options: RuntimeOptions, tuner_device_id: String) -> (r: ComputeClient)
    ensures
        r.tuner_view().device_id_view() == tuner_device_id@,
        r.wf(),
        r.server_view().chunks().len() == 0,
        r.server_view().pending_view().len() == 0,
        r.server_view().max_tasks_view() == options.max_tasks,
        r.server_view().memory_view().dealloc_view() == options.dealloc_strategy,
        r.server_view().memory_view().slice_view() == options.slice_strategy,
        r.tuner_view().cache_view() == Map::<u64, usize>::empty(),
        r.tuner_view().runs_view() == 0,
{
    let memory = MemoryManager::new(options.dealloc_strategy, options.slice_strategy);
    let server = Server::new(memory, options.max_tasks);
    ComputeClient::new(server, Tuner::new(tuner_device_id))
}

/// What one lookup-or-build of the client for `device` does to the entries:
/// an entry already there is returned and nothing changes; otherwise the
/// built client `r` is added.
pub open spec fn client_step<C>(
    e0: Seq<(WgpuDevice, C)>,
    e1: Seq<(WgpuDevice, C)>,
    device: WgpuDevice,
    r: C,
) -> bool {
    &&& forall|i: int| 0 <= i < e0.len() && #[trigger] e0[i].0 == device ==> e1 == e0 && r == e0[i].1
    &&& (forall|i: int| 0 <= i < e0.len() ==> #[trigger] e0[i].0 != device) ==> e1 == e0.push((device, r))
}

/// Whether no device appears twice among the entries.
pub open spec fn unique_devices<C>(e: Seq<(WgpuDevice, C)>) -> bool {
    forall|i: int, j: int| 0 <= i < j < e.len() ==> #[trigger] e[i].0 != #[trigger] e[j].0
}

/// One client per device, built the first time the device is asked for.
pub struct Registry<C> {
    entries: Vec<(WgpuDevice, C)>,
}

impl<C> Registry<C> {
    pub closed spec fn entries_view(&self) -> Seq<(WgpuDevice, C)> {
        self.entries@
    }

    pub open spec fn wf(&self) -> bool {
        unique_devices(self.entries_view())
    }

    /// A registry with no client.
    pub fn new() -> (r: Registry<C>)
        ensures
            r.wf(),
            r.entries_view().len() == 0,
    {
        Registry { entries: Vec::new() }
    }

    fn position(&self, device: WgpuDevice) -> (r: Option<usize>)
        ensures
            r is Some ==> r->0 < self.entries_view().len() && self.entries_view()[r->0 as int].0 == device,
            r is None ==> forall|i: int| 0 <= i < self.entries_view().len() ==> #[trigger] self.entries_view()[i].0 != device,
    {
        let mut i: usize = 0;
        while i < self.entries.len()
            invariant
                i <= self.entries@.len(),
                forall|j: int| 0 <= j < i ==> #[trigger] self.entries@[j].0 != device,
            decreases self.entries@.len() - i,
        {
            if self.entries[i].0 == device {
                return Some(i);
            }
            i = i + 1;
        }
        None
    }

    /// The client for `device`: the one already built, or else the one that
    /// `init` builds, which is kept for every later call. `init` runs at
    /// most once per device.
    pub fn client<F: FnOnce() -> C>(&mut self, device: WgpuDevice, init: F) -> (r: &C)
        requires
            old(self).wf(),
            init.requires(()),
        ensures
            final(self).wf(),
            client_step(old(self).entries_view(), final(self).entries_view(), device, *r),
            (forall|i: int| 0 <= i < old(self).entries_view().len() ==> #[trigger] old(self).entries_view()[i].0 != device)
                ==> init.ensures((), *r),
    {
        match self.position(device) {
            Some(i) => &self.entries[i].1,
            None => {
                let c = init();
                self.entries.push((device, c));
                let n = self.entries.len() - 1;
                &self.entries[n].1
            },
        }
    }

    /// Keeps `client` as the client for `device`, in place of any earlier one.
    pub fn register(&mut self, device: WgpuDevice, client: C)
        requires
            old(self).wf(),
        ensures
            final(self).wf(),
            forall|i: int| 0 <= i < old(self).entries_view().len() && #[trigger] old(self).entries_view()[i].0 == device
                ==> final(self).entries_view() == old(self).entries_view().update(i, (device, client)),
            (forall|i: int| 0 <= i < old(self).entries_view().len() ==> #[trigger] old(self).entries_view()[i].0 != device)
                ==> final(self).entries_view() == old(self).entries_view().push((device, client)),
    {
        match self.position(device) {
            Some(i) => {
                self.entries.set(i, (device, client));
            },
            None => {
                self.entries.push((device, client));
            },
        }
    }
}

/// Asking twice for the client of one device gives the same client, and the
/// second request changes nothing: every caller shares one client, and so one
/// server, per device.
pub proof fn lemma_registry_singleton<C>(
    e0: Seq<(WgpuDevice, C)>,
    e1: Seq<(WgpuDevice, C)>,
    e2: Seq<(WgpuDevice, C)>,
    device: WgpuDevice,
    r1: C,
    r2: C,
)
    requires
        client_step(e0, e1, device, r1),
        client_step(e1, e2, device, r2),
    ensures
        r2 == r1,
        e2 == e1,
{
    if exists|i: int| 0 <= i < e0.len() && e0[i].0 == device {
        let i = choose|i: int| 0 <= i < e0.len() && e0[i].0 == device;
        assert(e1 == e0 && r1 == e0[i].1);
        assert(e2 == e1 && r2 == e1[i].1);
    } else {
        assert(e1 == e0.push((device, r1)));
        let k = e0.len() as int;
        assert(e1[k].0 == device);
        assert(e2 == e1 && r2 == e1[k].1);
    }
}

} // verus!
