//! A state model of the kernel objects that sit above the filesystem:
//! tasks, processes with their descriptor tables, the ready queue, and the
//! system-call surface over them. Scheduling and traps are the embedder's;
//! here each operation is a function from kernel state to kernel state.

use vstd::prelude::*;

verus! {

/// Open-mode bits: write-only, read-write, create, truncate.
pub struct OpenFlags {
    pub bits: u32,
}

impl OpenFlags {
    /// The read and write permissions the bits ask for: empty bits mean
    /// read-only, the write-only bit write-only, anything else read-write.
    pub fn read_write(&self) -> (r: (bool, bool))
        ensures
            self.bits == 0 ==> r == (true, false),
            self.bits != 0 && self.bits & 1 == 1 ==> r == (false, true),
            self.bits != 0 && self.bits & 1 != 1 ==> r == (true, true),
    {
        if self.bits == 0 {
            (true, false)
        } else if self.bits & 1 == 1 {
            (false, true)
        } else {
            (true, true)
        }
    }
}

/// What a task is doing.
#[derive(Clone, Copy, PartialEq, Eq, Structural)]
pub enum TaskStatus {
    Ready,
    Running,
    Blocked,
}

/// The mutable part of a task.
pub struct TaskControlBlockInner {
    pub task_status: TaskStatus,
    pub exit_code: Option<i32>,
}

/// One thread of a process.
pub struct TaskControlBlock {
    pub pid: usize,
    pub tid: usize,
    pub inner: TaskControlBlockInner,
}

impl TaskControlBlock {
    /// Exclusive access to the mutable part.
    pub fn inner_exclusive_access(&mut self) -> (r: &mut TaskControlBlockInner)
        ensures
            *r == old(self).inner,
            *final(self) == (TaskControlBlock {
                inner: *final(r),
                ..*old(self)
            }),
    {
        &mut self.inner
    }
}

/// A task named by its process and thread ids.
#[derive(Clone, Copy, PartialEq, Eq, Structural, Debug)]
pub struct TaskRef {
    pub pid: usize,
    pub tid: usize,
}

/// The ready queue, first in first out.
pub struct TaskManager {
    pub ready_queue: Vec<TaskRef>,
}

impl TaskManager {
    pub fn new() -> (r: Self)
        ensures
            r.ready_queue@ =~= Seq::<TaskRef>::empty(),
    {
        TaskManager { ready_queue: Vec::new() }
    }

    /// Appends a task to the back of the queue.
    pub fn add(&mut self, task: TaskRef)
        ensures
            final(self).ready_queue@ == old(self).ready_queue@.push(task),
    {
        self.ready_queue.push(task);
    }

    /// Takes the task at the front of the queue.
    pub fn fetch(&mut self) -> (r: Option<TaskRef>)
        ensures
            old(self).ready_queue@.len() == 0 ==> r is None && *final(self) == *old(self),
            old(self).ready_queue@.len() > 0 ==> r == Some(old(self).ready_queue@[0]) && final(self).ready_queue@ == old(self).ready_queue@.skip(1),
    {
        if self.ready_queue.len() == 0 {
            return None;
        }
        let t = self.ready_queue.remove(0);
        proof {
            assert(self.ready_queue@ =~= old(self).ready_queue@.skip(1));
        }
        Some(t)
    }

    /// Removes the first queued occurrence of `task`, if any.
    pub fn remove(&mut self, task: TaskRef)
        ensures
            (forall|i: int|
                0 <= i < old(self).ready_queue@.len() ==> old(self).ready_queue@[i] != task)
                ==> final(self).ready_queue@ == old(self).ready_queue@,
            (exists|i: int|
                0 <= i < old(self).ready_queue@.len() && old(self).ready_queue@[i] == task)
                ==> final(self).ready_queue@.len() == old(self).ready_queue@.len() - 1,
    {
        let mut i: usize = 0;
        while i < self.ready_queue.len()
            invariant
                self.ready_queue@ == old(self).ready_queue@,
                i <= self.ready_queue@.len(),
                forall|j: int| 0 <= j < i ==> old(self).ready_queue@[j] != task,
            decreases self.ready_queue@.len() - i,
        {
            if self.ready_queue[i].pid == task.pid && self.ready_queue[i].tid == task.tid {
                self.ready_queue.remove(i);
                return ;
            }
            i += 1;
        }
    }
}

/// A process's address-space model: its token and a flat byte image.
pub struct MemorySet {
    pub token: usize,
    pub bytes: Vec<u8>,
}

/// A descriptor-table slot: the console streams or nothing.
#[derive(Clone, Copy, PartialEq, Eq, Structural, Debug)]
pub enum FdEntry {
    Stdin,
    Stdout,
}

/// The mutable part of a process.
pub struct ProcessControlBlockInner {
    pub is_zombie: bool,
    pub memory_set: MemorySet,
    pub parent: Option<usize>,
    pub children: Vec<usize>,
    pub fd_table: Vec<Option<FdEntry>>,
    pub exit_code: i32,
    pub tasks: Vec<Option<TaskControlBlock>>,
    pub tid_counter: usize,
    pub tid_recycled: Vec<usize>,
}

impl ProcessControlBlockInner {
    /// The address-space token.
    pub fn get_user_token(&self) -> (r: usize)
        ensures
            r == self.memory_set.token,
    {
        self.memory_set.token
    }

    /// The lowest free descriptor slot, extending the table when full.
    /// Nothing else changes: every existing slot, and every other field,
    /// reads as before.
    pub fn alloc_fd(&mut self) -> (fd: usize)
        ensures
            fd < final(self).fd_table@.len(),
            final(self).fd_table@[fd as int] is None,
            forall|i: int| 0 <= i < fd ==> (#[trigger] old(self).fd_table@[i]) is Some,
            fd < old(self).fd_table@.len() ==> final(self).fd_table@ == old(self).fd_table@,
            fd == old(self).fd_table@.len() ==> final(self).fd_table@ == old(
                self,
            ).fd_table@.push(None),
            fd <= old(self).fd_table@.len(),
            *final(self) == (ProcessControlBlockInner {
                fd_table: final(self).fd_table,
                ..*old(self)
            }),
    {
        let mut fd: usize = 0;
        while fd < self.fd_table.len()
            invariant
                self == old(self),
                fd <= self.fd_table@.len(),
                forall|i: int| 0 <= i < fd ==> (#[trigger] self.fd_table@[i]) is Some,
            decreases self.fd_table@.len() - fd,
        {
            if self.fd_table[fd].is_none() {
                return fd;
            }
            fd += 1;
        }
        self.fd_table.push(None);
        self.fd_table.len() - 1
    }

    /// A fresh thread id: the most recently recycled, or the next unused.
    pub fn alloc_tid(&mut self) -> (tid: usize)
        requires
            old(self).tid_counter < usize::MAX,
        ensures
            old(self).tid_recycled@.len() > 0 ==> tid == old(self).tid_recycled@.last() && final(self).tid_recycled@ == old(self).tid_recycled@.drop_last(),
            old(self).tid_recycled@.len() == 0 ==> tid == old(self).tid_counter && final(self).tid_counter == old(self).tid_counter + 1,
    {
        if let Some(t) = self.tid_recycled.pop() {
            t
        } else {
            self.tid_counter += 1;
            self.tid_counter - 1
        }
    }

    /// Returns a thread id for reuse.
    pub fn dealloc_tid(&mut self, tid: usize)
        ensures
            final(self).tid_recycled@ == old(self).tid_recycled@.push(tid),
    {
        self.tid_recycled.push(tid);
    }

    /// How many thread slots the process holds.
    pub fn thread_count(&self) -> (r: usize)
        ensures
            r == self.tasks@.len(),
    {
        self.tasks.len()
    }

    /// The thread with id `tid`, which must exist.
    pub fn get_task(&self, tid: usize) -> (r: &TaskControlBlock)
        requires
            tid < self.tasks@.len(),
            self.tasks@[tid as int] is Some,
        ensures
            *r == self.tasks@[tid as int].unwrap(),
    {
        self.tasks[tid].as_ref().unwrap()
    }
}

/// One process.
pub struct ProcessControlBlock {
    pub pid: usize,
    pub inner: ProcessControlBlockInner,
}

impl ProcessControlBlock {
    pub fn getpid(&self) -> (r: usize)
        ensures
            r == self.pid,
    {
        self.pid
    }

    /// Exclusive access to the mutable part.
    pub fn inner_exclusive_access(&mut self) -> (r: &mut ProcessControlBlockInner)
        ensures
            *r == old(self).inner,
            final(self).pid == old(self).pid,
            final(self).inner == *final(r),
    {
        &mut self.inner
    }
}

/// The kernel state: the process store, the pid map, the ready queue, the
/// running task, and a clock the embedder advances.
pub struct Kernel {
    pub processes: Vec<ProcessControlBlock>,
    pub pid2idx: Vec<(usize, usize)>,
    pub task_manager: TaskManager,
    pub current: Option<TaskRef>,
    pub time_ms: usize,
    pub pid_counter: usize,
}

/// Appends a task to the ready queue.
pub fn add_task(kernel: &mut Kernel, task: TaskRef)
    ensures
        final(kernel).task_manager.ready_queue@ == old(kernel).task_manager.ready_queue@.push(
            task,
        ),
        final(kernel).processes == old(kernel).processes,
        final(kernel).current == old(kernel).current,
        final(kernel).pid_counter == old(kernel).pid_counter,
        final(kernel).pid2idx == old(kernel).pid2idx,
{
    kernel.task_manager.add(task);
}

/// Takes the task at the front of the ready queue.
pub fn fetch_task(kernel: &mut Kernel) -> (r: Option<TaskRef>)
    ensures
        old(kernel).task_manager.ready_queue@.len() == 0 ==> r is None,
        old(kernel).task_manager.ready_queue@.len() > 0 ==> r == Some(
            old(kernel).task_manager.ready_queue@[0],
        ) && final(kernel).task_manager.ready_queue@ == old(kernel).task_manager.ready_queue@.skip(1),
        final(kernel).processes == old(kernel).processes,
{
    kernel.task_manager.fetch()
}

/// Removes a task from the ready queue, if queued.
pub fn remove_task(kernel: &mut Kernel, task: TaskRef)
    ensures
        final(kernel).processes == old(kernel).processes,
        final(kernel).current == old(kernel).current,
{
    kernel.task_manager.remove(task);
}

/// The index of `pid` in the process store, while the pid is registered.
pub fn pid2process(kernel: &Kernel, pid: usize) -> (r: Option<usize>)
    ensures
        match r {
            Some(i) => exists|j: int|
                0 <= j < kernel.pid2idx@.len() && #[trigger] kernel.pid2idx@[j] == (pid, i),
            None => forall|j: int|
                0 <= j < kernel.pid2idx@.len() ==> (#[trigger] kernel.pid2idx@[j]).0 != pid,
        },
{
    let mut j: usize = 0;
    while j < kernel.pid2idx.len()
        invariant
            j <= kernel.pid2idx@.len(),
            forall|i: int| 0 <= i < j ==> (#[trigger] kernel.pid2idx@[i]).0 != pid,
        decreases kernel.pid2idx@.len() - j,
    {
        if kernel.pid2idx[j].0 == pid {
            return Some(kernel.pid2idx[j].1);
        }
        j += 1;
    }
    None
}

/// Registers `pid` at process-store index `idx`.
pub fn insert_into_pid2process(kernel: &mut Kernel, pid: usize, idx: usize)
    ensures
        final(kernel).pid2idx@ == old(kernel).pid2idx@.push((pid, idx)),
        final(kernel).processes == old(kernel).processes,
        final(kernel).pid_counter == old(kernel).pid_counter,
        final(kernel).task_manager == old(kernel).task_manager,
        final(kernel).current == old(kernel).current,
{
    kernel.pid2idx.push((pid, idx));
}

/// Unregisters `pid`; the pid must be registered.
pub fn remove_from_pid2process(kernel: &mut Kernel, pid: usize)
    requires
        exists|j: int|
            0 <= j < old(kernel).pid2idx@.len() && (#[trigger] old(kernel).pid2idx@[j]).0 == pid,
    ensures
        final(kernel).pid2idx@.len() == old(kernel).pid2idx@.len() - 1,
        final(kernel).processes == old(kernel).processes,
{
    let mut j: usize = 0;
    while j < kernel.pid2idx.len()
        invariant
            kernel.pid2idx@ == old(kernel).pid2idx@,
            kernel.processes == old(kernel).processes,
            j <= kernel.pid2idx@.len(),
            exists|i: int|
                j <= i < kernel.pid2idx@.len() && (#[trigger] kernel.pid2idx@[i]).0 == pid,
        decreases kernel.pid2idx@.len() - j,
    {
        if kernel.pid2idx[j].0 == pid {
            kernel.pid2idx.remove(j);
            return ;
        }
        proof {
            let i = choose|i: int|
                j <= i < kernel.pid2idx@.len() && (#[trigger] kernel.pid2idx@[i]).0 == pid;
            assert(i > j);
        }
        j += 1;
    }
}

/// Marks a blocked task ready and queues it.
pub fn wakeup_task(kernel: &mut Kernel, task: TaskRef)
    requires
        exists|j: int|
            0 <= j < old(kernel).processes@.len() && (#[trigger] old(kernel).processes@[j]).pid == task.pid,
    ensures
        final(kernel).task_manager.ready_queue@ == old(kernel).task_manager.ready_queue@.push(
            task,
        ),
{
    let mut j: usize = 0;
    while j < kernel.processes.len()
        invariant
            kernel.task_manager == old(kernel).task_manager,
            j <= kernel.processes@.len(),
        decreases kernel.processes@.len() - j,
    {
        if kernel.processes[j].pid == task.pid {
            if task.tid < kernel.processes[j].inner.tasks.len() {
                if kernel.processes[j].inner.tasks[task.tid].is_some() {
                    let t = kernel.processes[j].inner.tasks[task.tid].as_mut().unwrap();
                    t.inner.task_status = TaskStatus::Ready;
                }
            }
            break ;
        }
        j += 1;
    }
    kernel.task_manager.add(task);
}

/// Installs the first process: one task, the console descriptors open, and
/// a place in the ready queue.
pub fn add_initproc(kernel: &mut Kernel)
    requires
        old(kernel).pid_counter < usize::MAX,
        old(kernel).processes@.len() < usize::MAX,
    ensures
        final(kernel).processes@.len() == old(kernel).processes@.len() + 1,
        final(kernel).processes@.last().pid == old(kernel).pid_counter,
        final(kernel).pid_counter == old(kernel).pid_counter + 1,
{
    let pid = kernel.pid_counter;
    kernel.pid_counter += 1;
    let mut fd_table: Vec<Option<FdEntry>> = Vec::new();
    fd_table.push(Some(FdEntry::Stdin));
    fd_table.push(Some(FdEntry::Stdout));
    fd_table.push(Some(FdEntry::Stdout));
    let mut tasks: Vec<Option<TaskControlBlock>> = Vec::new();
    tasks.push(
        Some(
            TaskControlBlock {
                pid,
                tid: 0,
                inner: TaskControlBlockInner { task_status: TaskStatus::Ready, exit_code: None },
            },
        ),
    );
    let pcb = ProcessControlBlock {
        pid,
        inner: ProcessControlBlockInner {
            is_zombie: false,
            memory_set: MemorySet { token: pid, bytes: Vec::new() },
            parent: None,
            children: Vec::new(),
            fd_table,
            exit_code: 0,
            tasks,
            tid_counter: 1,
            tid_recycled: Vec::new(),
        },
    };
    let idx = kernel.processes.len();
    kernel.processes.push(pcb);
    insert_into_pid2process(kernel, pid, idx);
    add_task(kernel, TaskRef { pid, tid: 0 });
}

/// Puts the running task at the back of the ready queue and picks the next
/// one to run.
pub fn suspend_current_and_run_next(kernel: &mut Kernel)
    ensures
        old(kernel).current is Some ==> final(kernel).current == (if old(kernel).task_manager.ready_queue@.len() > 0 {
            Some(old(kernel).task_manager.ready_queue@[0])
        } else {
            old(kernel).current
        }),
{
    if let Some(task) = kernel.current {
        kernel.task_manager.add(task);
        let next = kernel.task_manager.fetch();
        if let Some(n) = next {
            proof {
                if old(kernel).task_manager.ready_queue@.len() > 0 {
                    assert(n == old(kernel).task_manager.ready_queue@[0]);
                } else {
                    assert(n == task);
                }
            }
            kernel.current = Some(n);
        }
    }
}

/// The second scheduling entry point of the embedder's loop; in this model
/// it suspends exactly as the first.
pub fn suspend_current_and_run_next2(kernel: &mut Kernel)
    ensures
        old(kernel).current is Some ==> final(kernel).current == (if old(kernel).task_manager.ready_queue@.len() > 0 {
            Some(old(kernel).task_manager.ready_queue@[0])
        } else {
            old(kernel).current
        }),
{
    suspend_current_and_run_next(kernel);
}

/// Parks the running task without queuing it and picks the next one.
pub fn block_current_and_run_next(kernel: &mut Kernel)
    ensures
        old(kernel).task_manager.ready_queue@.len() > 0 ==> final(kernel).current == Some(
            old(kernel).task_manager.ready_queue@[0],
        ),
        old(kernel).task_manager.ready_queue@.len() == 0 ==> final(kernel).current is None,
{
    kernel.current = None;
    let next = kernel.task_manager.fetch();
    kernel.current = next;
}

} // verus!

verus! {

/// The position of the first process in `ps` with process id `pid`, or `-1`
/// when none carries it.
pub open spec fn first_with_pid(ps: Seq<ProcessControlBlock>, pid: usize) -> int
    decreases ps.len(),
{
    if ps.len() == 0 {
        -1
    } else if ps[0].pid == pid {
        0
    } else if first_with_pid(ps.skip(1), pid) == -1 {
        -1
    } else {
        1 + first_with_pid(ps.skip(1), pid)
    }
}

/// Whether a task is running and its process id names a process in the store:
/// the condition under which the process-directed system calls find their
/// subject.
pub open spec fn has_current_proc(kernel: &Kernel) -> bool {
    &&& kernel.current is Some
    &&& first_with_pid(kernel.processes@, kernel.current.unwrap().pid) >= 0
}

proof fn lemma_first_with_pid_at(ps: Seq<ProcessControlBlock>, pid: usize, i: int)
    requires
        0 <= i < ps.len(),
        ps[i].pid == pid,
        forall|k: int| 0 <= k < i ==> ps[k].pid != pid,
    ensures
        first_with_pid(ps, pid) == i,
    decreases i,
{
    if i > 0 {
        assert(forall|k: int| 0 <= k < i - 1 ==> ps.skip(1)[k] == ps[k + 1]);
        lemma_first_with_pid_at(ps.skip(1), pid, i - 1);
    }
}

proof fn lemma_first_with_pid_none(ps: Seq<ProcessControlBlock>, pid: usize)
    requires
        forall|k: int| 0 <= k < ps.len() ==> ps[k].pid != pid,
    ensures
        first_with_pid(ps, pid) == -1,
    decreases ps.len(),
{
    if ps.len() > 0 {
        lemma_first_with_pid_none(ps.skip(1), pid);
    }
}

/// The index of the running task's process in the store, when both exist:
/// the first slot whose process id matches the running task's.
fn current_proc_idx(kernel: &Kernel) -> (r: Option<usize>)
    ensures
        (r is Some) == has_current_proc(kernel),
        r is Some ==> r.unwrap() == first_with_pid(
            kernel.processes@,
            kernel.current.unwrap().pid,
        ) && r.unwrap() < kernel.processes@.len() && kernel.processes@[r.unwrap() as int].pid
            == kernel.current.unwrap().pid,
{
    match kernel.current {
        None => None,
        Some(task) => {
            let mut j: usize = 0;
            while j < kernel.processes.len()
                invariant
                    kernel.current == Some(task),
                    j <= kernel.processes@.len(),
                    forall|k: int| 0 <= k < j ==> kernel.processes@[k].pid != task.pid,
                decreases kernel.processes@.len() - j,
            {
                if kernel.processes[j].pid == task.pid {
                    proof {
                        lemma_first_with_pid_at(kernel.processes@, task.pid, j as int);
                    }
                    return Some(j);
                }
                j += 1;
            }
            proof {
                lemma_first_with_pid_none(kernel.processes@, task.pid);
            }
            None
        },
    }
}

/// Yields the processor: the running task goes to the back of the queue.
pub fn sys_yield(kernel: &mut Kernel) -> (r: isize)
    ensures
        r == 0,
{
    suspend_current_and_run_next(kernel);
    0
}

/// The kernel clock, in milliseconds, as the embedder last advanced it.
pub fn sys_get_time(kernel: &Kernel) -> (r: isize)
    requires
        kernel.time_ms <= 0x7FFFFFFF,
    ensures
        r == kernel.time_ms,
{
    kernel.time_ms as isize
}

/// The running task's process id, or failure when nothing runs.
pub fn sys_getpid(kernel: &Kernel) -> (r: isize)
    ensures
        kernel.current is Some && kernel.current.unwrap().pid <= 0x7FFFFFFF ==> r
            == kernel.current.unwrap().pid,
        kernel.current is None ==> r == -1,
{
    match kernel.current {
        Some(t) => {
            if t.pid <= 0x7FFFFFFF {
                t.pid as isize
            } else {
                -1
            }
        },
        None => -1,
    }
}

/// Closes descriptor `fd` of the running process: fails when the slot is
/// out of range or already empty.
pub fn sys_close(kernel: &mut Kernel, fd: usize) -> (r: isize)
    ensures
        r == 0 || r == -1,
{
    let idx = match current_proc_idx(kernel) {
        Some(i) => i,
        None => {
            return -1;
        },
    };
    let inner = &mut kernel.processes[idx].inner;
    if fd >= inner.fd_table.len() {
        return -1;
    }
    if inner.fd_table[fd].is_none() {
        return -1;
    }
    inner.fd_table[fd] = None;
    0
}

/// Duplicates descriptor `fd` of the running process into the lowest free
/// slot.
pub fn sys_dup(kernel: &mut Kernel, fd: usize) -> (r: isize)
    ensures
        r >= -1,
{
    let idx = match current_proc_idx(kernel) {
        Some(i) => i,
        None => {
            return -1;
        },
    };
    let inner = &mut kernel.processes[idx].inner;
    if fd >= inner.fd_table.len() {
        return -1;
    }
    let entry = match inner.fd_table[fd] {
        Some(e) => e,
        None => {
            return -1;
        },
    };
    let new_fd = inner.alloc_fd();
    inner.fd_table[new_fd] = Some(entry);
    if new_fd <= 0x7FFFFFFF {
        new_fd as isize
    } else {
        -1
    }
}

/// Writes through a descriptor: the console sink accepts every byte, so a
/// write to it reports the full length, and every other descriptor state
/// fails. The kernel itself is untouched.
pub fn sys_write(kernel: &mut Kernel, fd: usize, buf: &Vec<u8>) -> (r: isize)
    requires
        buf@.len() <= 0x7FFFFFFF,
    ensures
        *final(kernel) == *old(kernel),
        ({
            let ok = has_current_proc(old(kernel)) && {
                let ft = old(kernel).processes@[first_with_pid(
                    old(kernel).processes@,
                    old(kernel).current.unwrap().pid,
                )].inner.fd_table@;
                fd < ft.len() && ft[fd as int] == Some(FdEntry::Stdout)
            };
            if ok {
                r == buf@.len()
            } else {
                r == -1
            }
        }),
{
    let idx = match current_proc_idx(kernel) {
        Some(i) => i,
        None => {
            return -1;
        },
    };
    let inner = &kernel.processes[idx].inner;
    if fd >= inner.fd_table.len() {
        return -1;
    }
    match inner.fd_table[fd] {
        Some(FdEntry::Stdout) => buf.len() as isize,
        _ => -1,
    }
}

/// Reads through a descriptor: the console source of this model has no
/// pending input, so a read from it reports zero bytes, and every other
/// descriptor state fails. The kernel itself is untouched.
pub fn sys_read(kernel: &mut Kernel, fd: usize, len: usize) -> (r: isize)
    ensures
        *final(kernel) == *old(kernel),
        ({
            let ok = has_current_proc(old(kernel)) && {
                let ft = old(kernel).processes@[first_with_pid(
                    old(kernel).processes@,
                    old(kernel).current.unwrap().pid,
                )].inner.fd_table@;
                fd < ft.len() && ft[fd as int] == Some(FdEntry::Stdin)
            };
            if ok {
                r == 0
            } else {
                r == -1
            }
        }),
{
    let idx = match current_proc_idx(kernel) {
        Some(i) => i,
        None => {
            return -1;
        },
    };
    let inner = &kernel.processes[idx].inner;
    if fd >= inner.fd_table.len() {
        return -1;
    }
    match inner.fd_table[fd] {
        Some(FdEntry::Stdin) => 0,
        _ => -1,
    }
}

/// Forks the running process: the child gets a fresh pid, a copy of the
/// descriptor table, one ready task, and the parent records it as a child.
/// It fails exactly when no running task names a stored process, and then
/// changes nothing.
pub fn sys_fork(kernel: &mut Kernel) -> (r: isize)
    requires
        old(kernel).pid_counter < 0x7FFFFFFF,
        old(kernel).processes@.len() < usize::MAX,
    ensures
        r >= -1,
        (r == -1) == !has_current_proc(old(kernel)),
        r == -1 ==> *final(kernel) == *old(kernel),
        r >= 0 ==> ({
            let i = first_with_pid(old(kernel).processes@, old(kernel).current.unwrap().pid);
            &&& r == old(kernel).pid_counter
            &&& final(kernel).pid_counter == old(kernel).pid_counter + 1
            &&& final(kernel).processes@.len() == old(kernel).processes@.len() + 1
            &&& final(kernel).processes@.last().pid == old(kernel).pid_counter
            &&& final(kernel).processes@.last().inner.parent == Some(
                old(kernel).processes@[i].pid,
            )
            &&& final(kernel).processes@.last().inner.fd_table@ == old(
                kernel,
            ).processes@[i].inner.fd_table@
            &&& !final(kernel).processes@.last().inner.is_zombie
            &&& final(kernel).processes@.last().inner.children@.len() == 0
            &&& final(kernel).processes@[i].inner.children@ == old(
                kernel,
            ).processes@[i].inner.children@.push(old(kernel).pid_counter)
            &&& forall|k: int|
                0 <= k < old(kernel).processes@.len() && k != i ==> final(kernel).processes@[k]
                    == old(kernel).processes@[k]
            &&& final(kernel).task_manager.ready_queue@ == old(
                kernel,
            ).task_manager.ready_queue@.push(
                (TaskRef { pid: old(kernel).pid_counter, tid: 0 }),
            )
            &&& final(kernel).pid2idx@ == old(kernel).pid2idx@.push(
                (old(kernel).pid_counter, old(kernel).processes@.len() as usize),
            )
        }),
{
    let idx = match current_proc_idx(kernel) {
        Some(i) => i,
        None => {
            return -1;
        },
    };
    let parent_pid = kernel.processes[idx].pid;
    let new_pid = kernel.pid_counter;
    kernel.pid_counter += 1;
    // Copy the descriptor table.
    let mut fd_table: Vec<Option<FdEntry>> = Vec::new();
    let mut j: usize = 0;
    while j < kernel.processes[idx].inner.fd_table.len()
        invariant
            idx < kernel.processes@.len(),
            j <= kernel.processes@[idx as int].inner.fd_table@.len(),
            fd_table@.len() == j,
            fd_table@ =~= kernel.processes@[idx as int].inner.fd_table@.subrange(0, j as int),
        decreases kernel.processes@[idx as int].inner.fd_table@.len() - j,
    {
        fd_table.push(kernel.processes[idx].inner.fd_table[j]);
        j += 1;
    }
    proof {
        assert(fd_table@ =~= kernel.processes@[idx as int].inner.fd_table@);
    }
    let mut tasks: Vec<Option<TaskControlBlock>> = Vec::new();
    tasks.push(
        Some(
            TaskControlBlock {
                pid: new_pid,
                tid: 0,
                inner: TaskControlBlockInner { task_status: TaskStatus::Ready, exit_code: None },
            },
        ),
    );
    let child = ProcessControlBlock {
        pid: new_pid,
        inner: ProcessControlBlockInner {
            is_zombie: false,
            memory_set: MemorySet { token: new_pid, bytes: Vec::new() },
            parent: Some(parent_pid),
            children: Vec::new(),
            fd_table,
            exit_code: 0,
            tasks,
            tid_counter: 1,
            tid_recycled: Vec::new(),
        },
    };
    let cidx = kernel.processes.len();
    kernel.processes.push(child);
    insert_into_pid2process(kernel, new_pid, cidx);
    add_task(kernel, TaskRef { pid: new_pid, tid: 0 });
    kernel.processes[idx].inner.children.push(new_pid);
    new_pid as isize
}

/// Reaps a zombie child: `-1` when no child matches `pid`, `-2` when a
/// matching child is still running, else the child's pid, with its exit
/// code handed back and the child dropped from the parent's list.
pub fn sys_waitpid(kernel: &mut Kernel, pid: isize) -> (r: (isize, i32))
    ensures
        r.0 >= -2,
        !has_current_proc(old(kernel)) ==> r.0 == -1 && *final(kernel) == *old(kernel),
        r.0 == -2 ==> *final(kernel) == *old(kernel),
        r.0 >= 0 && pid >= 0 ==> r.0 == pid,
        r.0 >= 0 ==> exists|p: int|
            0 <= p < old(kernel).processes@.len() && (#[trigger] old(kernel).processes@[p]).pid
                == r.0 && old(kernel).processes@[p].inner.is_zombie && old(
                kernel,
            ).processes@[p].inner.exit_code == r.1,
        r.0 >= 0 ==> ({
            let i = first_with_pid(old(kernel).processes@, old(kernel).current.unwrap().pid);
            &&& exists|c: int|
                0 <= c < old(kernel).processes@[i].inner.children@.len() && old(
                    kernel,
                ).processes@[i].inner.children@[c] == r.0
            &&& final(kernel).processes@[i].inner.children@.len() == old(
                kernel,
            ).processes@[i].inner.children@.len() - 1
            &&& final(kernel).processes@.len() == old(kernel).processes@.len()
            &&& forall|k: int|
                0 <= k < old(kernel).processes@.len() && k != i ==> final(kernel).processes@[k]
                    == old(kernel).processes@[k]
        }),
{
    let idx = match current_proc_idx(kernel) {
        Some(i) => i,
        None => {
            return (-1, 0);
        },
    };
    // Does any child match?
    let mut found = false;
    let mut c: usize = 0;
    while c < kernel.processes[idx].inner.children.len()
        invariant
            idx < kernel.processes@.len(),
            c <= kernel.processes@[idx as int].inner.children@.len(),
        decreases kernel.processes@[idx as int].inner.children@.len() - c,
    {
        let child_pid = kernel.processes[idx].inner.children[c];
        if pid == -1 || (pid >= 0 && child_pid == pid as usize) {
            found = true;
        }
        c += 1;
    }
    if !found {
        return (-1, 0);
    }
    // Find a matching zombie.
    let mut c2: usize = 0;
    let n_children = kernel.processes[idx].inner.children.len();
    while c2 < n_children
        invariant
            idx < kernel.processes@.len(),
            has_current_proc(old(kernel)),
            idx == first_with_pid(old(kernel).processes@, old(kernel).current.unwrap().pid),
            *kernel == *old(kernel),
            n_children == kernel.processes@[idx as int].inner.children@.len(),
        decreases n_children - c2,
    {
        let child_pid = kernel.processes[idx].inner.children[c2];
        if pid == -1 || (pid >= 0 && child_pid == pid as usize) {
            let mut p: usize = 0;
            let mut zombie_code: Option<i32> = None;
            while p < kernel.processes.len()
                invariant
                    idx < kernel.processes@.len(),
                    n_children == kernel.processes@[idx as int].inner.children@.len(),
                    p <= kernel.processes@.len(),
                    zombie_code is Some ==> exists|z: int|
                        0 <= z < kernel.processes@.len() && (
                        #[trigger] kernel.processes@[z]).pid == child_pid
                            && kernel.processes@[z].inner.is_zombie
                            && kernel.processes@[z].inner.exit_code == zombie_code.unwrap(),
                decreases kernel.processes@.len() - p,
            {
                if kernel.processes[p].pid == child_pid {
                    if kernel.processes[p].inner.is_zombie {
                        zombie_code = Some(kernel.processes[p].inner.exit_code);
                    }
                    break ;
                }
                p += 1;
            }
            if let Some(code) = zombie_code {
                if c2 < kernel.processes[idx].inner.children.len() {
                    kernel.processes[idx].inner.children.remove(c2);
                }
                if child_pid <= 0x7FFFFFFF {
                    return (child_pid as isize, code);
                } else {
                    return (-1, 0);
                }
            }
        }
        c2 += 1;
    }
    (-2, 0)
}

/// Ends the running process: it becomes a zombie with exit code `-4`, its
/// pid leaves the registry, and the next task runs.
pub fn sys_kill(kernel: &mut Kernel) -> (r: isize)
    ensures
        r == 0,
{
    if let Some(idx) = current_proc_idx(kernel) {
        kernel.processes[idx].inner.is_zombie = true;
        kernel.processes[idx].inner.exit_code = -4;
        let pid = kernel.processes[idx].pid;
        let mut j: usize = 0;
        while j < kernel.pid2idx.len()
            invariant
                j <= kernel.pid2idx@.len(),
            decreases kernel.pid2idx@.len() - j,
        {
            if kernel.pid2idx[j].0 == pid {
                kernel.pid2idx.remove(j);
                break ;
            }
            j += 1;
        }
    }
    block_current_and_run_next(kernel);
    0
}

/// System-call numbers of the dispatch table.
pub const SYSCALL_DUP: usize = 24;

pub const SYSCALL_CLOSE: usize = 57;

pub const SYSCALL_READ: usize = 63;

pub const SYSCALL_WRITE: usize = 64;

pub const SYSCALL_YIELD: usize = 124;

pub const SYSCALL_KILL: usize = 129;

pub const SYSCALL_GET_TIME: usize = 169;

pub const SYSCALL_GETPID: usize = 172;

pub const SYSCALL_FORK: usize = 220;

pub const SYSCALL_WAITPID: usize = 260;

/// Dispatches a system call by number over the kernel state; an unknown
/// number fails rather than trapping.
pub fn syscall(kernel: &mut Kernel, syscall_id: usize, args: [usize; 3]) -> (r: isize)
    requires
        old(kernel).time_ms <= 0x7FFFFFFF,
        old(kernel).pid_counter < 0x7FFFFFFF,
        old(kernel).processes@.len() < usize::MAX,
    ensures
        syscall_id == SYSCALL_YIELD ==> r == 0,
        syscall_id == SYSCALL_GET_TIME ==> r == old(kernel).time_ms,
{
    if syscall_id == SYSCALL_DUP {
        sys_dup(kernel, args[0])
    } else if syscall_id == SYSCALL_CLOSE {
        sys_close(kernel, args[0])
    } else if syscall_id == SYSCALL_READ {
        sys_read(kernel, args[0], args[2])
    } else if syscall_id == SYSCALL_YIELD {
        sys_yield(kernel)
    } else if syscall_id == SYSCALL_KILL {
        sys_kill(kernel)
    } else if syscall_id == SYSCALL_GET_TIME {
        sys_get_time(kernel)
    } else if syscall_id == SYSCALL_GETPID {
        sys_getpid(kernel)
    } else if syscall_id == SYSCALL_FORK {
        sys_fork(kernel)
    } else if syscall_id == SYSCALL_WAITPID {
        let (got, _code) = sys_waitpid(kernel, args[0] as isize);
        got
    } else {
        -1
    }
}

} // verus!
