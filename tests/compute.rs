use burn_compute_core::client::ComputeClient;
use burn_compute_core::memory::{DeallocStrategy, Handle, MemoryManager, SliceStrategy};
use burn_compute_core::runtime::{
    create_client, select_adapter, Registry, RuntimeOptions, SelectError, WgpuDevice,
};
use burn_compute_core::server::{Kernel, Server};
use burn_compute_core::tune::{fastest, AutotuneOperationSet, Tuner};
use burn_compute_core::DEFAULT_MAX_TASKS;
use burn_compute_core::runtime::AdapterKind::{Cpu, DiscreteGpu, IntegratedGpu, Other, VirtualGpu};
use std::cell::Cell;

fn client() -> ComputeClient {
    create_client(RuntimeOptions::default(), String::from("test-device"))
}

fn server(max_tasks: usize) -> Server {
    Server::new(
        MemoryManager::new(DeallocStrategy::Never, SliceStrategy::Ratio(80)),
        max_tasks,
    )
}

#[test]
fn create_then_read_round_trips() {
    let mut c = client();
    let data = vec![9u8, 8, 7, 6, 5];
    let h = c.create(&data);
    assert_eq!(h.size, 5);
    assert_eq!(c.read(h), data);
}

#[test]
fn create_then_read_single_byte() {
    let mut c = client();
    let h = c.create(&vec![255u8]);
    assert_eq!(c.read(h), vec![255u8]);
}

#[test]
fn noop_kernel_keeps_a_1024_byte_pattern() {
    let mut c = client();
    let empty = c.empty(1024);
    assert_eq!(empty.size, 1024);
    let pattern: Vec<u8> = (1..=1024u32).map(|i| i as u8).collect();
    let h = c.create(&pattern);
    c.execute(Kernel::Noop, &vec![h]);
    assert_eq!(c.read(h), pattern);
}

#[test]
fn empty_reads_zeroes() {
    let mut c = client();
    let h = c.empty(4);
    assert_eq!(c.read(h), vec![0u8; 4]);
}

#[test]
fn fill_then_copy_reads_in_order() {
    let mut c = client();
    let a = c.create(&vec![1u8, 2, 3]);
    let b = c.create(&vec![0u8, 0, 0]);
    c.execute(Kernel::Fill(7), &vec![a]);
    c.execute(Kernel::Copy, &vec![a, b]);
    assert_eq!(c.read(b), vec![7u8, 7, 7]);
    assert_eq!(c.read(a), vec![7u8, 7, 7]);
}

#[test]
fn copy_then_fill_leaves_copy_unchanged() {
    let mut c = client();
    let a = c.create(&vec![1u8, 2, 3]);
    let b = c.create(&vec![0u8, 0, 0]);
    c.execute(Kernel::Copy, &vec![a, b]);
    c.execute(Kernel::Fill(7), &vec![a]);
    assert_eq!(c.read(b), vec![1u8, 2, 3]);
    assert_eq!(c.read(a), vec![7u8, 7, 7]);
}

#[test]
fn add_scalar_wraps() {
    let mut c = client();
    let a = c.create(&vec![250u8, 1]);
    c.execute(Kernel::AddScalar(10), &vec![a]);
    assert_eq!(c.read(a), vec![4u8, 11]);
}

#[test]
fn copy_uses_the_shorter_length() {
    let mut c = client();
    let a = c.create(&vec![1u8, 2, 3, 4]);
    let b = c.create(&vec![0u8, 0]);
    c.execute(Kernel::Copy, &vec![a, b]);
    assert_eq!(c.read(b), vec![1u8, 2]);
}

#[test]
fn batch_flushes_at_max_tasks() {
    let mut s = server(3);
    let h = s.create(&vec![0u8]);
    s.execute(Kernel::AddScalar(1), &vec![h]);
    s.execute(Kernel::AddScalar(1), &vec![h]);
    assert_eq!(s.pending_len(), 2);
    s.execute(Kernel::AddScalar(1), &vec![h]);
    assert_eq!(s.pending_len(), 0);
    s.execute(Kernel::AddScalar(1), &vec![h]);
    assert_eq!(s.pending_len(), 1);
    assert_eq!(s.read(h), vec![4u8]);
    assert_eq!(s.pending_len(), 0);
}

#[test]
fn sync_empties_the_batch() {
    let mut s = server(10);
    let h = s.create(&vec![3u8]);
    s.execute(Kernel::Fill(1), &vec![h]);
    assert_eq!(s.pending_len(), 1);
    s.sync();
    assert_eq!(s.pending_len(), 0);
    assert_eq!(s.read(h), vec![1u8]);
}

#[test]
fn release_of_slice_keeps_owner_live() {
    let mut s = server(10);
    let owner = s.create(&vec![1u8, 2, 3, 4]);
    let piece = s.slice(owner, 1, 2).unwrap();
    assert_eq!(piece, Handle { chunk: owner.chunk, offset: 1, size: 2 });
    assert_eq!(s.read(piece), vec![2u8, 3]);
    assert_eq!(s.memory().chunk(owner.chunk).unwrap().refs, 2);
    s.release(piece);
    assert_eq!(s.memory().chunk(owner.chunk).unwrap().refs, 1);
    assert_eq!(s.read(owner), vec![1u8, 2, 3, 4]);
}

#[test]
fn released_chunk_is_reused_within_ratio() {
    let mut m = MemoryManager::new(DeallocStrategy::Never, SliceStrategy::Ratio(80));
    let a = m.reserve(100);
    m.release(a);
    let b = m.reserve(90);
    assert_eq!(b.chunk, a.chunk);
    assert_eq!(m.chunk_count(), 1);
    m.release(b);
    let c = m.reserve(50);
    assert_ne!(c.chunk, a.chunk);
    assert_eq!(m.chunk_count(), 2);
}

#[test]
fn live_chunks_are_not_reused() {
    let mut m = MemoryManager::new(DeallocStrategy::Never, SliceStrategy::Always);
    let a = m.reserve(10);
    let b = m.reserve(10);
    assert_ne!(a.chunk, b.chunk);
    let ca = m.chunk(a.chunk).unwrap();
    let cb = m.chunk(b.chunk).unwrap();
    assert_eq!(ca.refs, 1);
    assert_eq!(cb.refs, 1);
    assert!(ca.used <= ca.size && cb.used <= cb.size);
}

#[test]
fn smallest_fitting_chunk_is_chosen() {
    let mut m = MemoryManager::new(DeallocStrategy::Never, SliceStrategy::Always);
    let big = m.reserve(100);
    let small = m.reserve(20);
    m.release(big);
    m.release(small);
    let h = m.reserve(10);
    assert_eq!(h.chunk, small.chunk);
}

#[test]
fn period_tick_reclaims_free_chunks() {
    let mut m = MemoryManager::new(DeallocStrategy::new_period_tick(2), SliceStrategy::Never);
    let a = m.reserve(8);
    m.release(a);
    let _b = m.reserve(8);
    let ca = m.chunk(a.chunk).unwrap();
    assert!(!ca.allocated);
    assert_eq!(ca.refs, 0);
}

#[test]
fn release_of_dead_handle_changes_nothing() {
    let mut m = MemoryManager::new(DeallocStrategy::Never, SliceStrategy::Never);
    let a = m.reserve(8);
    m.release(a);
    m.release(a);
    assert_eq!(m.chunk(a.chunk).unwrap().refs, 0);
    m.release(Handle { chunk: 99, offset: 0, size: 1 });
    assert_eq!(m.chunk_count(), 1);
}

#[test]
fn dealloc_tick_counts_period() {
    let mut d = DeallocStrategy::new_period_tick(3);
    assert!(!d.should_dealloc());
    assert!(!d.should_dealloc());
    assert!(d.should_dealloc());
    assert!(!d.should_dealloc());
    let mut never = DeallocStrategy::Never;
    assert!(!never.should_dealloc());
    let mut zero = DeallocStrategy::new_period_tick(0);
    assert!(!zero.should_dealloc());
}

#[test]
fn slice_strategy_rules() {
    assert!(!SliceStrategy::Never.can_use_chunk(10, 10));
    assert!(SliceStrategy::Ratio(80).can_use_chunk(100, 80));
    assert!(!SliceStrategy::Ratio(80).can_use_chunk(100, 79));
    assert!(SliceStrategy::MinimumSize(5).can_use_chunk(100, 5));
    assert!(!SliceStrategy::MinimumSize(5).can_use_chunk(100, 4));
    assert!(SliceStrategy::MaximumSize(5).can_use_chunk(100, 5));
    assert!(!SliceStrategy::MaximumSize(5).can_use_chunk(100, 6));
    assert!(SliceStrategy::Always.can_use_chunk(100, 1));
}

#[test]
fn fastest_picks_first_minimum() {
    assert_eq!(fastest(&vec![Some(30), Some(20), Some(10)]), Some(2));
    assert_eq!(fastest(&vec![Some(5), None, Some(5)]), Some(0));
    assert_eq!(fastest(&vec![None, Some(9), None]), Some(1));
    assert_eq!(fastest(&vec![None, None]), None);
    assert_eq!(fastest(&vec![]), None);
}

struct ThreeVariants {
    key: u64,
    calls: Cell<u64>,
    ran: Cell<Option<usize>>,
}

impl AutotuneOperationSet for ThreeVariants {
    fn key_view(&self) -> u64 {
        self.key
    }

    fn count_view(&self) -> usize {
        3
    }

    fn fallback_view(&self) -> usize {
        0
    }

    fn key(&self) -> u64 {
        self.key
    }

    fn variant_count(&self) -> usize {
        3
    }

    fn fallback_index(&self) -> usize {
        0
    }

    fn execute_variant(&self, index: usize, server: &mut Server) -> bool {
        self.calls.set(self.calls.get() + 1);
        self.ran.set(Some(index));
        let h = server.create(&vec![0u8; 64]);
        let rounds = if index == 2 { 1 } else { 3000 };
        for _ in 0..rounds {
            server.execute(Kernel::AddScalar(1), &vec![h]);
        }
        server.sync();
        server.release(h);
        true
    }
}

struct NeverApplies {
    calls: Cell<u64>,
}

impl AutotuneOperationSet for NeverApplies {
    fn key_view(&self) -> u64 {
        77
    }

    fn count_view(&self) -> usize {
        2
    }

    fn fallback_view(&self) -> usize {
        1
    }

    fn key(&self) -> u64 {
        77
    }

    fn variant_count(&self) -> usize {
        2
    }

    fn fallback_index(&self) -> usize {
        1
    }

    fn execute_variant(&self, _index: usize, _server: &mut Server) -> bool {
        self.calls.set(self.calls.get() + 1);
        false
    }
}

#[test]
fn autotune_caches_fastest_variant() {
    let mut c = client();
    let op = ThreeVariants { key: 5, calls: Cell::new(0), ran: Cell::new(None) };
    assert_eq!(c.autotune_result(5), None);
    let first = c.autotune_execute(&op);
    assert_eq!(first, 2);
    assert_eq!(c.autotune_result(5), Some(2));
    assert_eq!(c.benchmark_runs(), 1);
    assert_eq!(op.calls.get(), 4);
    let second = c.autotune_execute(&op);
    assert_eq!(second, 2);
    assert_eq!(c.benchmark_runs(), 1);
    assert_eq!(op.calls.get(), 5);
    assert_eq!(op.ran.get(), Some(2));
}

#[test]
fn autotune_without_applicable_variant_runs_fallback_uncached() {
    let mut c = client();
    let op = NeverApplies { calls: Cell::new(0) };
    assert_eq!(c.autotune_execute(&op), 1);
    assert_eq!(c.autotune_result(77), None);
    assert_eq!(c.benchmark_runs(), 1);
    assert_eq!(c.autotune_execute(&op), 1);
    assert_eq!(c.benchmark_runs(), 2);
    assert_eq!(op.calls.get(), 6);
}

#[test]
fn tuner_starts_empty() {
    let t = Tuner::new(String::from("wgpu-7-vulkan"));
    assert_eq!(t.device_id(), "wgpu-7-vulkan");
    assert_eq!(t.autotune_fastest(1), None);
    assert_eq!(t.benchmark_runs(), 0);
}

#[test]
fn registry_builds_once_per_device() {
    let mut reg: Registry<u32> = Registry::new();
    let mut built = 0u32;
    let a = *reg.client(WgpuDevice::Cpu, || {
        built += 1;
        10
    });
    let b = *reg.client(WgpuDevice::Cpu, || 20);
    let d = *reg.client(WgpuDevice::DiscreteGpu(0), || 30);
    assert_eq!(a, 10);
    assert_eq!(b, 10);
    assert_eq!(d, 30);
    assert_eq!(built, 1);
}

#[test]
fn registry_shares_one_server() {
    let mut reg: Registry<usize> = Registry::new();
    let mut clients: Vec<ComputeClient> = Vec::new();
    let first = *reg.client(WgpuDevice::BestAvailable, || {
        clients.push(client());
        0
    });
    let second = *reg.client(WgpuDevice::BestAvailable, || 1);
    assert_eq!(first, second);
    let h = clients[first].create(&vec![4u8, 2]);
    assert_eq!(clients[second].read(h), vec![4u8, 2]);
}

#[test]
fn register_replaces_client() {
    let mut reg: Registry<u32> = Registry::new();
    reg.register(WgpuDevice::Existing(3), 1);
    reg.register(WgpuDevice::Existing(3), 2);
    assert_eq!(*reg.client(WgpuDevice::Existing(3), || 9), 2);
}

#[test]
fn select_numbered_devices() {
    let kinds = vec![Cpu, DiscreteGpu, Other, DiscreteGpu, IntegratedGpu];
    assert_eq!(select_adapter(WgpuDevice::DiscreteGpu(0), &kinds), Ok(1));
    assert_eq!(select_adapter(WgpuDevice::DiscreteGpu(1), &kinds), Ok(3));
    assert_eq!(
        select_adapter(WgpuDevice::DiscreteGpu(2), &kinds),
        Err(SelectError::NoDiscreteGpu)
    );
    assert_eq!(select_adapter(WgpuDevice::IntegratedGpu(0), &kinds), Ok(4));
    assert_eq!(select_adapter(WgpuDevice::Cpu, &kinds), Ok(0));
    assert_eq!(
        select_adapter(WgpuDevice::VirtualGpu(1), &kinds),
        Err(SelectError::NoVirtualGpu)
    );
    assert_eq!(
        select_adapter(WgpuDevice::IntegratedGpu(1), &kinds),
        Err(SelectError::NoIntegratedGpu)
    );
}

#[test]
fn select_falls_back_to_other_adapters() {
    let kinds = vec![Cpu, Other, Other];
    assert_eq!(select_adapter(WgpuDevice::VirtualGpu(0), &kinds), Ok(1));
    assert_eq!(select_adapter(WgpuDevice::VirtualGpu(1), &kinds), Ok(2));
    assert_eq!(select_adapter(WgpuDevice::Cpu, &vec![Other]), Ok(0));
    assert_eq!(select_adapter(WgpuDevice::Cpu, &vec![]), Err(SelectError::NoCpu));
}

#[test]
fn select_best_available() {
    assert_eq!(
        select_adapter(WgpuDevice::BestAvailable, &vec![Cpu, IntegratedGpu, DiscreteGpu, DiscreteGpu]),
        Ok(2)
    );
    assert_eq!(
        select_adapter(WgpuDevice::BestAvailable, &vec![Other, IntegratedGpu, Cpu]),
        Ok(0)
    );
    assert_eq!(
        select_adapter(WgpuDevice::BestAvailable, &vec![Other, DiscreteGpu]),
        Ok(1)
    );
    assert_eq!(select_adapter(WgpuDevice::BestAvailable, &vec![VirtualGpu, Cpu]), Ok(0));
    assert_eq!(
        select_adapter(WgpuDevice::BestAvailable, &vec![]),
        Err(SelectError::NoAdapter)
    );
}

#[test]
fn select_refuses_existing_device() {
    assert_eq!(
        select_adapter(WgpuDevice::Existing(0), &vec![DiscreteGpu]),
        Err(SelectError::ExistingDevice)
    );
}

#[test]
fn default_options() {
    let o = RuntimeOptions::default();
    assert_eq!(o.max_tasks, 64);
    assert_eq!(o.max_tasks, DEFAULT_MAX_TASKS);
    assert_eq!(o.dealloc_strategy, DeallocStrategy::PeriodTick { period: 128, state: 0 });
    assert_eq!(o.slice_strategy, SliceStrategy::Ratio(80));
}

#[test]
fn options_with_max_tasks() {
    let o = RuntimeOptions::with_max_tasks(10).unwrap();
    assert_eq!(o.dealloc_strategy, DeallocStrategy::PeriodTick { period: 20, state: 0 });
    assert_eq!(o.max_tasks, 10);
    assert_eq!(RuntimeOptions::with_max_tasks(usize::MAX), None);
}

fn live_and_allocated(m: &MemoryManager) -> (usize, usize) {
    let mut live = 0;
    let mut allocated = 0;
    for i in 0..m.chunk_count() {
        let c = m.chunk(i).unwrap();
        if c.refs > 0 {
            live += c.used;
        }
        if c.allocated {
            allocated += c.size;
        }
    }
    (live, allocated)
}

#[test]
fn live_bytes_stay_within_allocated() {
    let mut m = MemoryManager::new(DeallocStrategy::new_period_tick(4), SliceStrategy::Ratio(50));
    let a = m.reserve(100);
    let b = m.reserve(40);
    m.release(a);
    let c = m.reserve(60);
    assert_eq!(c.chunk, a.chunk);
    let (live, allocated) = live_and_allocated(&m);
    assert_eq!(live, 100);
    assert_eq!(allocated, 140);
    m.release(b);
    m.release(c);
    let d = m.reserve(10);
    let (live, allocated) = live_and_allocated(&m);
    assert_eq!(live, 10);
    assert_eq!(allocated, 10);
    assert_eq!(d.chunk, 2);
    assert_eq!(m.chunk(d.chunk).unwrap().size, 10);
}

#[test]
fn pending_kernel_survives_other_reservations() {
    let mut s = server(100);
    let a = s.create(&vec![1u8, 1]);
    s.execute(Kernel::Fill(9), &vec![a]);
    let b = s.create(&vec![5u8, 6, 7]);
    let e = s.empty(2);
    assert_eq!(s.pending_len(), 1);
    assert_eq!(s.read(a), vec![9u8, 9]);
    assert_eq!(s.read(b), vec![5u8, 6, 7]);
    assert_eq!(s.read(e), vec![0u8, 0]);
}

#[test]
fn custom_command_copies_between_handles() {
    let mut c = client();
    let a = c.create(&vec![1u8, 2, 3]);
    let b = c.create(&vec![0u8, 0, 0]);
    c.execute(Kernel::AddScalar(1), &vec![a]);
    let total = c.run_custom_command(
        |bytes: Vec<Vec<u8>>| {
            let sum: u32 = bytes[0].iter().map(|x| *x as u32).sum();
            (vec![bytes[0].clone(), bytes[0].clone()], sum)
        },
        &vec![a, b],
    );
    assert_eq!(total, 9);
    assert_eq!(c.read(b), vec![2u8, 3, 4]);
    assert_eq!(c.read(a), vec![2u8, 3, 4]);
}

#[test]
fn custom_command_ignores_entries_of_wrong_length() {
    let mut c = client();
    let a = c.create(&vec![5u8, 6]);
    let b = c.create(&vec![7u8]);
    c.run_custom_command(|_bytes: Vec<Vec<u8>>| (vec![vec![1u8, 2, 3], vec![9u8]], ()), &vec![a, b]);
    assert_eq!(c.read(a), vec![5u8, 6]);
    assert_eq!(c.read(b), vec![9u8]);
}
