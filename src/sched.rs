//! The round-robin scheduler: processes by id, a FIFO of ready ids, and the
//! running id (0 before the first process is started).
use vstd::prelude::*;
use std::collections::VecDeque;
use crate::addr::PhysPageNum;
use crate::frame::{AllocState, FrameAllocator};
use crate::paging::PagingError;
use crate::physmem::PhysMem;
use crate::process::Process;
use crate::set::MapArea;
use crate::trap::TrapFrame;

verus! {

/// The running id followed by the ready queue.
pub open spec fn rotate(c: Seq<u64>) -> Seq<u64> {
    c.drop_first().push(c[0])
}

pub open spec fn rotate_n(c: Seq<u64>, n: nat) -> Seq<u64>
    decreases n,
{
    if n == 0 {
        c
    } else {
        rotate_n(rotate(c), (n - 1) as nat)
    }
}

pub open spec fn rotate_by(c: Seq<u64>, k: int) -> Seq<u64> {
    c.subrange(k, c.len() as int).add(c.subrange(0, k))
}

proof fn lemma_rotate_by_step(c: Seq<u64>, k: int)
    requires
        c.len() > 0,
        0 <= k < c.len(),
    ensures
        rotate(rotate_by(c, k)) == rotate_by(c, (k + 1) % (c.len() as int)),
{
    let r = rotate_by(c, k);
    let n = c.len() as int;
    if k + 1 < n {
        vstd::arithmetic::div_mod::lemma_small_mod((k + 1) as nat, n as nat);
        assert(rotate(r) =~= rotate_by(c, k + 1));
    } else {
        vstd::arithmetic::div_mod::lemma_mod_self_0(n);
        assert(rotate(r) =~= rotate_by(c, 0));
    }
}

proof fn lemma_rotate_n(c: Seq<u64>, n: nat, k: int)
    requires
        c.len() > 0,
        0 <= k < c.len(),
    ensures
        rotate_n(rotate_by(c, k), n) == rotate_by(c, (k + n) % (c.len() as int)),
    decreases n,
{
    if n == 0 {
        vstd::arithmetic::div_mod::lemma_small_mod(k as nat, c.len());
    } else {
        lemma_rotate_by_step(c, k);
        let k1 = (k + 1) % (c.len() as int);
        lemma_rotate_n(c, (n - 1) as nat, k1);
        assert((k1 + (n - 1)) % (c.len() as int) == (k + n) % (c.len() as int)) by {
            vstd::arithmetic::div_mod::lemma_add_mod_noop(k + 1, (n - 1) as int, c.len() as int);
            vstd::arithmetic::div_mod::lemma_mod_twice(k + 1, c.len() as int);
            vstd::arithmetic::div_mod::lemma_small_mod((n - 1) as nat % c.len(), c.len());
            vstd::arithmetic::div_mod::lemma_add_mod_noop(k1, (n - 1) as int, c.len() as int);
        }
    }
}

/// Round robin: with the running id and the ready queue as one cycle, each
/// involuntary tick rotates it by one, so after `n` ticks the running id is
/// the cycle's element `n mod len`.
pub proof fn lemma_round_robin(c: Seq<u64>, n: nat)
    requires
        c.len() > 0,
    ensures
        rotate_n(c, n)[0] == c[(n % c.len()) as int],
{
    assert(rotate_by(c, 0) =~= c);
    lemma_rotate_n(c, n, 0);
    let k = (n % c.len()) as int;
    assert(rotate_by(c, k)[0] == c[k]);
}

pub struct Sched {
    processes: Vec<(u64, Process)>,
    ready: VecDeque<u64>,
    running: u64,
    next_pid: u64,
}

impl Sched {
    pub closed spec fn running(&self) -> u64 {
        self.running
    }

    pub closed spec fn ready(&self) -> Seq<u64> {
        self.ready@
    }

    pub closed spec fn next_pid(&self) -> u64 {
        self.next_pid
    }

    /// The ids of the processes, in the order they were pushed.
    pub closed spec fn pids(&self) -> Seq<u64> {
        self.processes@.map_values(|p: (u64, Process)| p.0)
    }

    pub closed spec fn index_of(&self, pid: u64) -> int {
        choose|i: int| 0 <= i < self.processes@.len() && self.processes@[i].0 == pid
    }

    /// The process with id `pid`.
    pub closed spec fn process(&self, pid: u64) -> Process {
        self.processes@[self.index_of(pid)].1
    }

    /// The running id followed by the ready ids.
    pub open spec fn cycle(&self) -> Seq<u64> {
        seq![self.running()].add(self.ready())
    }

    pub closed spec fn wf(&self) -> bool {
        &&& self.next_pid >= 1
        &&& forall|i: int| 0 <= i < self.processes@.len() ==> 0 < (#[trigger] self.processes@[i]).0 < self.next_pid
        &&& forall|i: int, j: int|
            0 <= i < self.processes@.len() && 0 <= j < self.processes@.len() && i != j
                ==> (#[trigger] self.processes@[i]).0 != (#[trigger] self.processes@[j]).0
        &&& forall|k: int| 0 <= k < self.ready@.len() ==> self.pids().contains(#[trigger] self.ready@[k])
        &&& (self.running != 0 ==> self.pids().contains(self.running))
    }

    pub fn new() -> (r: Sched)
        ensures
            r.wf(),
            r.running() == 0,
            r.ready() == Seq::<u64>::empty(),
            r.pids() == Seq::<u64>::empty(),
            r.next_pid() == 1,
            forall|a: AllocState| #[trigger] r.procs_ok(a),
    {
        let r = Sched { processes: Vec::new(), ready: VecDeque::new(), running: 0, next_pid: 1 };
        assert(r.pids() =~= Seq::<u64>::empty());
        r
    }

    proof fn lemma_index_of(&self, i: int)
        requires
            self.wf(),
            0 <= i < self.processes@.len(),
        ensures
            self.index_of(self.processes@[i].0) == i,
    {
        let pid = self.processes@[i].0;
        assert(exists|k: int| 0 <= k < self.processes@.len() && self.processes@[k].0 == pid);
    }

    fn find(&self, pid: u64) -> (r: Option<usize>)
        requires
            self.wf(),
        ensures
            (r is None <==> !self.pids().contains(pid)),
            (r matches Some(i) ==> i < self.processes@.len() && i == self.index_of(pid) && self.processes@[i as int].0 == pid),
    {
        let mut i: usize = 0;
        while i < self.processes.len()
            invariant
                self.wf(),
                i <= self.processes@.len(),
                forall|k: int| 0 <= k < i ==> self.processes@[k].0 != pid,
            decreases self.processes@.len() - i,
        {
            if self.processes[i].0 == pid {
                proof {
                    self.lemma_index_of(i as int);
                    assert(self.pids()[i as int] == pid);
                }
                return Some(i);
            }
            i = i + 1;
        }
        proof {
            if self.pids().contains(pid) {
                let k = choose|k: int| 0 <= k < self.pids().len() && self.pids()[k] == pid;
                assert(self.processes@[k].0 == pid);
            }
        }
        None
    }

    /// Adds a process under the next id and makes it ready; returns the id.
    pub fn push(&mut self, p: Process) -> (pid: u64)
        requires
            old(self).wf(),
            old(self).next_pid() < u64::MAX,
        ensures
            final(self).wf(),
            pid == old(self).next_pid(),
            final(self).next_pid() == pid + 1,
            final(self).pids() == old(self).pids().push(pid),
            final(self).ready() == old(self).ready().push(pid),
            final(self).running() == old(self).running(),
            final(self).process(pid) == p,
            forall|q: u64| #[trigger] old(self).pids().contains(q) ==> final(self).process(q) == old(self).process(q),
    {
        let ghost s0 = *self;
        let pid = self.next_pid;
        self.next_pid = self.next_pid + 1;
        self.processes.push((pid, p));
        self.ready.push_back(pid);
        proof {
            assert(self.pids() =~= s0.pids().push(pid));
            let n = s0.processes@.len() as int;
            assert forall|i: int| 0 <= i < self.processes@.len() implies 0 < (#[trigger] self.processes@[i]).0 < self.next_pid by {
                if i < n {
                    assert(self.processes@[i] == s0.processes@[i]);
                }
            }
            assert forall|i: int, j: int|
                0 <= i < self.processes@.len() && 0 <= j < self.processes@.len() && i != j
                    implies (#[trigger] self.processes@[i]).0 != (#[trigger] self.processes@[j]).0 by {
                if i < n {
                    assert(self.processes@[i] == s0.processes@[i]);
                }
                if j < n {
                    assert(self.processes@[j] == s0.processes@[j]);
                }
            }
            assert forall|k: int| 0 <= k < self.ready@.len() implies self.pids().contains(#[trigger] self.ready@[k]) by {
                if k < s0.ready@.len() {
                    assert(s0.pids().contains(self.ready@[k]));
                    let j = choose|j: int| 0 <= j < s0.pids().len() && s0.pids()[j] == self.ready@[k];
                    assert(self.pids()[j] == self.ready@[k]);
                } else {
                    assert(self.pids()[n] == pid);
                }
            }
            if self.running != 0 {
                let j = choose|j: int| 0 <= j < s0.pids().len() && s0.pids()[j] == self.running;
                assert(self.pids()[j] == self.running);
            }
            assert(self.wf());
            self.lemma_index_of(n);
            assert forall|q: u64| #[trigger] s0.pids().contains(q) implies self.process(q) == s0.process(q) by {
                let j = choose|j: int| 0 <= j < s0.pids().len() && s0.pids()[j] == q;
                s0.lemma_index_of(j);
                self.lemma_index_of(j);
                assert(self.processes@[j] == s0.processes@[j]);
            }
        }
        pid
    }

    /// Saves `tf` into the running process, requeues it when the switch is
    /// involuntary, and switches to the first ready process: its frame is
    /// copied into `tf` and its root table is returned for activation.
    /// Before the first process starts nothing happens; with nothing ready
    /// the running process keeps running.
    pub fn tick(&mut self, involuntary: bool, tf: &mut TrapFrame) -> (r: Option<PhysPageNum>)
        requires
            old(self).wf(),
        ensures
            final(self).wf(),
            final(self).pids() == old(self).pids(),
            final(self).next_pid() == old(self).next_pid(),
            old(self).running() == 0 ==> r is None && *final(self) == *old(self) && *final(tf) == *old(tf),
            old(self).running() != 0 ==> {
                let cur = old(self).running();
                let queue = if involuntary {
                    old(self).ready().push(cur)
                } else {
                    old(self).ready()
                };
                &&& final(self).process(cur).tf == *old(tf)
                &&& final(self).process(cur).mset == old(self).process(cur).mset
                &&& forall|q: u64| #[trigger] old(self).pids().contains(q) && q != cur ==> final(self).process(q)
                    == old(self).process(q)
                &&& (queue.len() == 0 ==> r is None && final(self).running() == cur && final(self).ready() == queue
                    && *final(tf) == *old(tf))
                &&& (queue.len() > 0 ==> {
                    &&& final(self).running() == queue[0]
                    &&& final(self).ready() == queue.drop_first()
                    &&& *final(tf) == final(self).process(queue[0]).tf
                    &&& r == Some(PhysPageNum(final(self).process(queue[0]).mset.table.root()))
                })
            },
            (old(self).running() != 0 && involuntary) ==> final(self).cycle() == rotate(old(self).cycle()),
    {
        if self.running == 0 {
            return None;
        }
        let ghost s0 = *self;
        let cur = self.running;
        let idx = match self.find(cur) {
            Some(i) => i,
            None => {
                return None;
            },
        };
        self.processes[idx].1.tf = *tf;
        let ghost s1 = *self;
        proof {
            assert(s1.pids() =~= s0.pids());
            assert forall|i: int| 0 <= i < s1.processes@.len() implies 0 < (#[trigger] s1.processes@[i]).0 < s1.next_pid by {
                assert(s1.processes@[i].0 == s0.processes@[i].0);
            }
            assert forall|i: int, j: int|
                0 <= i < s1.processes@.len() && 0 <= j < s1.processes@.len() && i != j
                    implies (#[trigger] s1.processes@[i]).0 != (#[trigger] s1.processes@[j]).0 by {
                assert(s1.processes@[i].0 == s0.processes@[i].0);
                assert(s1.processes@[j].0 == s0.processes@[j].0);
            }
            assert(s1.wf());
            s1.lemma_index_of(idx as int);
            assert forall|q: u64| #[trigger] s0.pids().contains(q) && q != cur implies s1.process(q) == s0.process(q) by {
                let j = choose|j: int| 0 <= j < s0.pids().len() && s0.pids()[j] == q;
                s0.lemma_index_of(j);
                s1.lemma_index_of(j);
            }
        }
        if involuntary {
            self.ready.push_back(cur);
        }
        let ghost queue = self.ready@;
        proof {
            assert forall|k: int| 0 <= k < self.ready@.len() implies self.pids().contains(#[trigger] self.ready@[k]) by {
                if k < s1.ready@.len() {
                    assert(s1.pids().contains(s1.ready@[k]));
                }
            }
        }
        match self.ready.pop_front() {
            None => None,
            Some(next) => {
                proof {
                    assert(queue[0] == next);
                    assert(self.pids().contains(queue[0]));
                    assert forall|k: int| 0 <= k < self.ready@.len() implies self.pids().contains(#[trigger] self.ready@[k]) by {
                        assert(self.ready@[k] == queue[k + 1]);
                        assert(self.pids().contains(queue[k + 1]));
                    }
                }
                self.running = next;
                let j = match self.find(next) {
                    Some(j) => j,
                    None => {
                        return None;
                    },
                };
                *tf = self.processes[j].1.tf;
                proof {
                    if involuntary {
                        assert(self.cycle() =~= rotate(s0.cycle()));
                    }
                }
                Some(self.processes[j].1.mset.table.ppn())
            },
        }
    }

    /// Starts the first ready process: it becomes the running one, and its
    /// root table and frame are returned for activation and the jump to it.
    pub fn bootstrap(&mut self) -> (r: Option<(PhysPageNum, TrapFrame)>)
        requires
            old(self).wf(),
        ensures
            final(self).wf(),
            final(self).pids() == old(self).pids(),
            final(self).next_pid() == old(self).next_pid(),
            forall|q: u64| #[trigger] old(self).pids().contains(q) ==> final(self).process(q) == old(self).process(q),
            old(self).ready().len() == 0 ==> r is None && final(self).running() == old(self).running()
                && final(self).ready() == old(self).ready(),
            old(self).ready().len() > 0 ==> {
                let first = old(self).ready()[0];
                &&& final(self).running() == first
                &&& final(self).ready() == old(self).ready().drop_first()
                &&& r == Some((PhysPageNum(old(self).process(first).mset.table.root()), old(self).process(first).tf))
            },
    {
        let ghost s0 = *self;
        match self.ready.pop_front() {
            None => None,
            Some(next) => {
                proof {
                    assert(s0.pids().contains(s0.ready@[0]));
                    assert forall|k: int| 0 <= k < self.ready@.len() implies self.pids().contains(#[trigger] self.ready@[k]) by {
                        assert(self.ready@[k] == s0.ready@[k + 1]);
                    }
                }
                self.running = next;
                let j = match self.find(next) {
                    Some(j) => j,
                    None => {
                        return None;
                    },
                };
                Some((self.processes[j].1.mset.table.ppn(), self.processes[j].1.tf))
            },
        }
    }

    /// The running process, once one has started.
    pub fn running_process(&self) -> (r: Option<&Process>)
        requires
            self.wf(),
        ensures
            self.running() == 0 ==> r is None,
            self.running() != 0 ==> r == Some(&self.process(self.running())),
    {
        if self.running == 0 {
            return None;
        }
        match self.find(self.running) {
            Some(i) => Some(&self.processes[i].1),
            None => None,
        }
    }

    /// Every address space is well formed and backed by frames that `a`
    /// has handed out.
    pub closed spec fn procs_ok(&self, a: AllocState) -> bool {
        forall|i: int| 0 <= i < self.processes@.len() ==> {
            &&& (#[trigger] self.processes@[i]).1.mset.wf()
            &&& self.processes@[i].1.mset.lent_from(a)
        }
    }

    pub proof fn lemma_procs_ok_mono(&self, a: AllocState, b: AllocState)
        requires
            self.procs_ok(a),
            forall|p: u64| #[trigger] a.lent(p) ==> b.lent(p),
        ensures
            self.procs_ok(b),
    {
        assert forall|i: int| 0 <= i < self.processes@.len() implies {
            &&& (#[trigger] self.processes@[i]).1.mset.wf()
            &&& self.processes@[i].1.mset.lent_from(b)
        } by {
            self.processes@[i].1.mset.lemma_lent_mono(a, b);
        }
    }

    pub proof fn lemma_procs_ok(&self, a: AllocState, pid: u64)
        requires
            self.wf(),
            self.procs_ok(a),
            self.pids().contains(pid),
        ensures
            self.process(pid).mset.wf(),
            self.process(pid).mset.lent_from(a),
    {
        let j = choose|j: int| 0 <= j < self.pids().len() && self.pids()[j] == pid;
        self.lemma_index_of(j);
    }

    /// `procs_ok` after `push`.
    pub proof fn lemma_push_procs_ok(s0: Sched, s1: Sched, a: AllocState, pid: u64)
        requires
            s0.wf(),
            s1.wf(),
            s0.procs_ok(a),
            s1.pids() == s0.pids().push(pid),
            s1.process(pid).mset.wf(),
            s1.process(pid).mset.lent_from(a),
            forall|q: u64| #[trigger] s0.pids().contains(q) ==> s1.process(q) == s0.process(q),
        ensures
            s1.procs_ok(a),
    {
        assert forall|i: int| 0 <= i < s1.processes@.len() implies {
            &&& (#[trigger] s1.processes@[i]).1.mset.wf()
            &&& s1.processes@[i].1.mset.lent_from(a)
        } by {
            let q = s1.processes@[i].0;
            s1.lemma_index_of(i);
            assert(s1.pids()[i] == q);
            assert(s1.process(q) == s1.processes@[i].1);
            if i < s0.processes@.len() {
                assert(s0.pids()[i] == q);
                assert(s0.pids().contains(q));
                s0.lemma_procs_ok(a, q);
                assert(s1.process(q) == s0.process(q));
            } else {
                assert(s0.pids().len() == s0.processes@.len());
                assert(s1.pids().len() == s1.processes@.len());
                assert(i == s0.pids().len());
                assert(s0.pids().push(pid)[i] == pid);
                assert(q == pid);
            }
        }
    }

    /// Maps `area` into the running process's address space.
    pub fn push_into_running(&mut self, frames: &mut FrameAllocator, mem: &mut PhysMem, area: MapArea) -> (r: Result<(), PagingError>)
        requires
            old(self).wf(),
            old(self).procs_ok(old(frames)@),
            old(frames)@.wf(),
            old(mem).wf(),
            old(self).running() != 0,
            area.wf(),
            area.lent_from(old(frames)@),
            forall|v: int| #[trigger] area.in_range(v) ==> area.ready_for(v),
        ensures
            final(self).wf(),
            final(self).procs_ok(final(frames)@),
            final(frames)@.wf(),
            final(mem).wf(),
            forall|p: u64| #[trigger] old(frames)@.lent(p) ==> final(frames)@.lent(p),
            final(self).pids() == old(self).pids(),
            final(self).running() == old(self).running(),
            final(self).ready() == old(self).ready(),
            final(self).next_pid() == old(self).next_pid(),
            ((forall|v: int| #[trigger] area.in_range(v) ==> !old(self).process(old(self).running()).mset.table.mapping().contains_key(v))
                && old(frames)@.available() >= 3 * (area.vpn_end.0 - area.vpn_start.0)) ==> r is Ok,
            (r is Ok ==> final(self).process(old(self).running()).mset.table.mapping() == old(self).process(
                old(self).running(),
            ).mset.table.mapping().union_prefer_right(final(self).process(old(self).running()).mset.areas().last().area_mapping())),
            (r is Ok ==> final(self).process(old(self).running()).mset.areas().last().same_shape(&area)),
            (r is Ok ==> final(frames)@.available() >= old(frames)@.available() - 3 * (area.vpn_end.0 - area.vpn_start.0)),
            (r is Ok && !(area.target is Framed) ==> final(self).process(old(self).running()).mset.areas().last() == area),
            forall|q: u64| #[trigger] old(self).pids().contains(q) && q != old(self).running() ==> final(self).process(q)
                == old(self).process(q),
    {
        let ghost s0 = *self;
        let ghost a0 = frames@;
        let cur = self.running;
        let i = match self.find(cur) {
            Some(i) => i,
            None => {
                return Err(PagingError::NotMapped);
            },
        };
        proof {
            s0.lemma_procs_ok(a0, cur);
        }
        let r = self.processes[i].1.mset.push(frames, mem, area, None);
        proof {
            assert(self.pids() =~= s0.pids());
            assert forall|k: int| 0 <= k < self.processes@.len() implies 0 < (#[trigger] self.processes@[k]).0 < self.next_pid by {
                assert(self.processes@[k].0 == s0.processes@[k].0);
            }
            assert forall|k: int, j: int|
                0 <= k < self.processes@.len() && 0 <= j < self.processes@.len() && k != j
                    implies (#[trigger] self.processes@[k]).0 != (#[trigger] self.processes@[j]).0 by {
                assert(self.processes@[k].0 == s0.processes@[k].0);
                assert(self.processes@[j].0 == s0.processes@[j].0);
            }
            assert(self.wf());
            self.lemma_index_of(i as int);
            assert forall|k: int| 0 <= k < self.processes@.len() implies {
                &&& (#[trigger] self.processes@[k]).1.mset.wf()
                &&& self.processes@[k].1.mset.lent_from(frames@)
            } by {
                if k != i {
                    assert(self.processes@[k] == s0.processes@[k]);
                    s0.processes@[k].1.mset.lemma_lent_mono(a0, frames@);
                }
            }
            assert forall|q: u64| #[trigger] s0.pids().contains(q) && q != cur implies self.process(q) == s0.process(q) by {
                let j = choose|j: int| 0 <= j < s0.pids().len() && s0.pids()[j] == q;
                s0.lemma_index_of(j);
                self.lemma_index_of(j);
            }
        }
        r
    }

    /// The running id; 0 before the first process starts.
    pub fn running_id(&self) -> (r: u64)
        ensures
            r == self.running(),
    {
        self.running
    }

    /// Whether another process can still get an id.
    pub fn pid_available(&self) -> (r: bool)
        ensures
            r == (self.next_pid() < u64::MAX),
    {
        self.next_pid < u64::MAX
    }

    /// A running process is one of the scheduler's processes.
    pub proof fn lemma_running_present(&self)
        requires
            self.wf(),
            self.running() != 0,
        ensures
            self.pids().contains(self.running()),
    {
    }

    /// `procs_ok` holds of a scheduler whose address spaces are the same.
    pub proof fn lemma_procs_ok_same(s0: Sched, s1: Sched, a: AllocState)
        requires
            s0.wf(),
            s1.wf(),
            s0.procs_ok(a),
            s1.pids() == s0.pids(),
            forall|q: u64| #[trigger] s0.pids().contains(q) ==> s1.process(q).mset == s0.process(q).mset,
        ensures
            s1.procs_ok(a),
    {
        assert forall|i: int| 0 <= i < s1.processes@.len() implies {
            &&& (#[trigger] s1.processes@[i]).1.mset.wf()
            &&& s1.processes@[i].1.mset.lent_from(a)
        } by {
            let q = s1.processes@[i].0;
            s1.lemma_index_of(i);
            assert(s1.pids().len() == s1.processes@.len());
            assert(s1.pids()[i] == q);
            assert(s0.pids().contains(q));
            s0.lemma_procs_ok(a, q);
        }
    }

    /// How many processes there are.
    pub fn process_count(&self) -> (r: usize)
        ensures
            r == self.pids().len(),
    {
        self.processes.len()
    }

    /// The process pushed `i`-th.
    pub fn process_at(&self, i: usize) -> (r: Option<&Process>)
        requires
            self.wf(),
        ensures
            i >= self.pids().len() ==> r is None,
            i < self.pids().len() ==> r == Some(&self.process(self.pids()[i as int])),
    {
        if i < self.processes.len() {
            proof {
                self.lemma_index_of(i as int);
            }
            Some(&self.processes[i].1)
        } else {
            None
        }
    }
}

} // verus!
