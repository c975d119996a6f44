use easy_fs::addr::{PhysAddr, VirtAddr, VirtPageNum, PhysPageNum, SimpleRange, StepByOne};
use easy_fs::frame_alloc::{StackFrameAllocator, frame_alloc, frame_dealloc, init_frame_allocator};
use easy_fs::bitmap::Bitmap;
use easy_fs::block_cache::BlockCache;
use easy_fs::disk::MemDisk;

#[test]
fn address_arithmetic() {
    assert_eq!(PhysAddr(0x1234).page_offset(), 0x234);
    assert_eq!(PhysAddr(0x1234).floor().0, 1);
    assert_eq!(PhysAddr(0x1234).ceil().0, 2);
    assert_eq!(PhysAddr(0).ceil().0, 0);
    assert_eq!(VirtAddr(0x2000).page_offset(), 0);
    assert_eq!(VirtAddr(0x2001).ceil().0, 3);
    assert_eq!(VirtAddr(0x2000).floor().0, 2);
}

#[test]
fn vpn_indexes() {
    let vpn = VirtPageNum((1 << 18) + (2 << 9) + 3);
    let idx = vpn.indexes();
    assert_eq!(idx, [1, 2, 3]);
}

#[test]
fn simple_range_iterates() {
    let r = SimpleRange::new(VirtPageNum(2), VirtPageNum(5));
    assert_eq!(r.get_start().0, 2);
    assert_eq!(r.get_end().0, 5);
    let mut it = r.iter();
    let mut seen = Vec::new();
    while let Some(v) = it.next() {
        seen.push(v.0);
    }
    assert_eq!(seen, vec![2, 3, 4]);
    let mut p = PhysPageNum(7);
    p.step();
    assert_eq!(p.0, 8);
}

#[test]
fn frame_allocator_recycles() {
    let mut a = StackFrameAllocator::new();
    init_frame_allocator(&mut a, PhysPageNum(100), PhysPageNum(105));
    let f1 = frame_alloc(&mut a).unwrap();
    let f2 = frame_alloc(&mut a).unwrap();
    assert_eq!(f1.ppn.0, 100);
    assert_eq!(f2.ppn.0, 101);
    frame_dealloc(&mut a, f1.ppn);
    let f3 = frame_alloc(&mut a).unwrap();
    assert_eq!(f3.ppn.0, 100);
    let _ = frame_alloc(&mut a).unwrap(); // 102
    let _ = frame_alloc(&mut a).unwrap(); // 103
    let _ = frame_alloc(&mut a).unwrap(); // 104
    assert!(frame_alloc(&mut a).is_none());
}

#[test]
fn bitmap_alloc_lowest_and_dealloc() {
    let disk = MemDisk::new(8);
    let mut cache = BlockCache::new(disk);
    let bm = Bitmap::new(1, 2, 100);
    assert_eq!(bm.allocate(&mut cache), Some(0));
    assert_eq!(bm.allocate(&mut cache), Some(1));
    assert_eq!(bm.allocate(&mut cache), Some(2));
    bm.dealloc(&mut cache, 1);
    assert_eq!(bm.allocate(&mut cache), Some(1));
    // exhaust the 100 usable bits
    for _ in 3..100 {
        assert!(bm.allocate(&mut cache).is_some());
    }
    assert_eq!(bm.allocate(&mut cache), None);
}

use easy_fs::kernel::{Kernel, TaskManager, TaskRef, OpenFlags, add_initproc, sys_fork, sys_yield,
    sys_getpid, sys_get_time, syscall, sys_waitpid, sys_kill, sys_dup, sys_close,
    SYSCALL_GET_TIME, SYSCALL_YIELD};

fn fresh_kernel() -> Kernel {
    Kernel {
        processes: Vec::new(),
        pid2idx: Vec::new(),
        task_manager: TaskManager::new(),
        current: None,
        time_ms: 0,
        pid_counter: 0,
    }
}

#[test]
fn open_flags_read_write() {
    assert_eq!(OpenFlags { bits: 0 }.read_write(), (true, false));
    assert_eq!(OpenFlags { bits: 1 }.read_write(), (false, true));
    assert_eq!(OpenFlags { bits: 2 }.read_write(), (true, true));
}

#[test]
fn task_manager_fifo() {
    let mut tm = TaskManager::new();
    tm.add(TaskRef { pid: 1, tid: 0 });
    tm.add(TaskRef { pid: 2, tid: 0 });
    assert_eq!(tm.fetch(), Some(TaskRef { pid: 1, tid: 0 }));
    tm.add(TaskRef { pid: 3, tid: 0 });
    tm.remove(TaskRef { pid: 3, tid: 0 });
    assert_eq!(tm.fetch(), Some(TaskRef { pid: 2, tid: 0 }));
    assert_eq!(tm.fetch(), None);
}

#[test]
fn fork_wait_kill_flow() {
    let mut k = fresh_kernel();
    add_initproc(&mut k);
    k.current = k.task_manager.fetch();
    assert_eq!(sys_getpid(&k), 0);
    let child = sys_fork(&mut k);
    assert_eq!(child, 1);
    // the child has not exited yet
    assert_eq!(sys_waitpid(&mut k, child).0, -2);
    // run the child and end it
    k.current = Some(TaskRef { pid: child as usize, tid: 0 });
    assert_eq!(sys_kill(&mut k), 0);
    // back as the parent: the zombie child can be reaped
    k.current = Some(TaskRef { pid: 0, tid: 0 });
    let (got, code) = sys_waitpid(&mut k, child);
    assert_eq!(got, child);
    assert_eq!(code, -4);
    assert_eq!(sys_waitpid(&mut k, child).0, -1);
}

#[test]
fn syscall_dispatch() {
    let mut k = fresh_kernel();
    add_initproc(&mut k);
    k.current = k.task_manager.fetch();
    k.time_ms = 42;
    assert_eq!(syscall(&mut k, SYSCALL_GET_TIME, [0, 0, 0]), 42);
    assert_eq!(syscall(&mut k, SYSCALL_YIELD, [0, 0, 0]), 0);
    assert_eq!(syscall(&mut k, 9999, [0, 0, 0]), -1);
    assert_eq!(sys_get_time(&k), 42);
    assert_eq!(sys_yield(&mut k), 0);
}

#[test]
fn fd_table_dup_close() {
    let mut k = fresh_kernel();
    add_initproc(&mut k);
    k.current = k.task_manager.fetch();
    // descriptors 0, 1, 2 are open after setup
    let d = sys_dup(&mut k, 1);
    assert_eq!(d, 3);
    assert_eq!(sys_close(&mut k, 3), 0);
    assert_eq!(sys_close(&mut k, 3), -1);
    assert_eq!(sys_close(&mut k, 99), -1);
}
