//! Physical frames: a bump allocator with a LIFO free list, and the owning
//! handle that it hands out.
use vstd::prelude::*;
use std::collections::VecDeque;
use crate::addr::{PhysAddr, PhysPageNum, page_ceil, page_floor};

verus! {

/// What an allocator holds: the free list (head first), the bump pointer and
/// the first page number past the managed region.
pub struct AllocState {
    pub free: Seq<u64>,
    pub next: int,
    pub end: int,
}

impl AllocState {
    pub open spec fn wf(self) -> bool {
        &&& 0 <= self.next <= self.end <= 0x1000_0000_0000
        &&& self.free.no_duplicates()
        &&& forall|i: int| 0 <= i < self.free.len() ==> (#[trigger] self.free[i]) < self.next
    }

    /// The allocator may still hand out page `p`.
    pub open spec fn holds(self, p: int) -> bool {
        self.free.contains(p as u64) && 0 <= p < 0x1_0000_0000_0000_0000 || self.next <= p < self.end
    }

    /// Page `p` was handed out and is not back yet.
    pub open spec fn lent(self, p: u64) -> bool {
        p < self.next && !self.free.contains(p)
    }

    /// Frames that can still be handed out.
    pub open spec fn available(self) -> int {
        self.free.len() + (self.end - self.next)
    }

    /// The page that the next allocation returns.
    pub open spec fn next_frame(self) -> Option<u64> {
        if self.free.len() > 0 {
            Some(self.free[0])
        } else if self.next < self.end {
            Some(self.next as u64)
        } else {
            None
        }
    }

    pub open spec fn after_alloc(self) -> AllocState {
        if self.free.len() > 0 {
            AllocState { free: self.free.drop_first(), ..self }
        } else if self.next < self.end {
            AllocState { next: self.next + 1, ..self }
        } else {
            self
        }
    }

    pub open spec fn after_free(self, p: u64) -> AllocState {
        AllocState { free: seq![p].add(self.free), ..self }
    }

    /// Returns `fs` in order, first element first.
    pub open spec fn after_free_all(self, fs: Seq<u64>) -> AllocState
        decreases fs.len(),
    {
        if fs.len() == 0 {
            self
        } else {
            self.after_free(fs[0]).after_free_all(fs.drop_first())
        }
    }

    /// Allocates `n` times; the state after, and the pages handed out in order.
    pub open spec fn alloc_n(self, n: nat) -> (AllocState, Seq<u64>)
        decreases n,
    {
        if n == 0 {
            (self, Seq::empty())
        } else {
            match self.next_frame() {
                None => (self, Seq::empty()),
                Some(p) => {
                    let (s, got) = self.after_alloc().alloc_n((n - 1) as nat);
                    (s, seq![p].add(got))
                },
            }
        }
    }
}

/// Frees `fs` one by one, then allocates as many frames: the allocator hands
/// back exactly the freed frames, the last one freed first, so as a set they
/// are the frames that were freed.
pub proof fn lemma_frames_reused(s: AllocState, fs: Seq<u64>)
    requires
        s.wf(),
        fs.no_duplicates(),
        forall|i: int| 0 <= i < fs.len() ==> s.lent(#[trigger] fs[i]),
    ensures
        s.after_free_all(fs).alloc_n(fs.len()).1 == fs.reverse(),
        s.after_free_all(fs).alloc_n(fs.len()).1.to_set() == fs.to_set(),
        s.after_free_all(fs).alloc_n(fs.len()).0 == s,
{
    assert(s.free.subrange(0, 0) =~= Seq::<u64>::empty());
    lemma_free_then_alloc(s, fs, Seq::empty());
    assert(s.free.subrange(0, s.free.len() as int) =~= s.free);
    assert(fs.reverse().add(Seq::empty()) =~= fs.reverse());
    assert((fs.len() + 0) as nat == fs.len());
    lemma_reverse_to_set(fs);
}

proof fn lemma_reverse_to_set(fs: Seq<u64>)
    ensures
        fs.reverse().to_set() == fs.to_set(),
{
    assert forall|x: u64| fs.reverse().to_set().contains(x) <==> fs.to_set().contains(x) by {
        if fs.reverse().contains(x) {
            let i = choose|i: int| 0 <= i < fs.reverse().len() && fs.reverse()[i] == x;
            assert(fs[fs.len() - 1 - i] == x);
        }
        if fs.contains(x) {
            let i = choose|i: int| 0 <= i < fs.len() && fs[i] == x;
            assert(fs.reverse()[fs.len() - 1 - i] == x);
        }
    }
    assert(fs.reverse().to_set() =~= fs.to_set());
}

/// Freeing `fs` on top of a free list that starts with `pre` and then taking
/// `pre.len() + fs.len()` frames gives back `fs` reversed, then `pre`.
proof fn lemma_free_then_alloc(s: AllocState, fs: Seq<u64>, pre: Seq<u64>)
    requires
        s.free.len() >= pre.len(),
        s.free.subrange(0, pre.len() as int) == pre,
        s.next <= s.end,
    ensures
        ({
            let t = AllocState { free: s.free.subrange(pre.len() as int, s.free.len() as int), ..s };
            &&& s.after_free_all(fs).alloc_n(fs.len() + pre.len()).1 == fs.reverse().add(pre)
            &&& s.after_free_all(fs).alloc_n(fs.len() + pre.len()).0 == t
        }),
    decreases fs.len(),
{
    if fs.len() == 0 {
        lemma_alloc_prefix(s, pre);
        assert(fs.reverse().add(pre) =~= pre);
    } else {
        let s1 = s.after_free(fs[0]);
        let pre1 = seq![fs[0]].add(pre);
        assert(s1.free.subrange(0, pre1.len() as int) =~= pre1);
        lemma_free_then_alloc(s1, fs.drop_first(), pre1);
        assert(fs.drop_first().reverse().add(pre1) =~= fs.reverse().add(pre));
        assert(s1.free.subrange(pre1.len() as int, s1.free.len() as int) =~= s.free.subrange(
            pre.len() as int,
            s.free.len() as int,
        ));
        assert((fs.drop_first().len() + pre1.len()) as nat == (fs.len() + pre.len()) as nat);
    }
}

/// Taking as many frames as the free list's prefix `pre` holds returns `pre`.
proof fn lemma_alloc_prefix(s: AllocState, pre: Seq<u64>)
    requires
        s.free.len() >= pre.len(),
        s.free.subrange(0, pre.len() as int) == pre,
    ensures
        s.alloc_n(pre.len()).1 == pre,
        s.alloc_n(pre.len()).0 == (AllocState {
            free: s.free.subrange(pre.len() as int, s.free.len() as int),
            ..s
        }),
    decreases pre.len(),
{
    if pre.len() == 0 {
        assert(s.free.subrange(0, s.free.len() as int) =~= s.free);
    } else {
        assert(s.free[0] == pre[0]);
        let s1 = s.after_alloc();
        assert(s1.free.subrange(0, pre.drop_first().len() as int) =~= pre.drop_first());
        lemma_alloc_prefix(s1, pre.drop_first());
        assert(seq![pre[0]].add(pre.drop_first()) =~= pre);
        assert(s1.free.subrange(pre.drop_first().len() as int, s1.free.len() as int)
            =~= s.free.subrange(pre.len() as int, s.free.len() as int));
    }
}

/// One allocation keeps the allocator well formed, takes the frame it
/// returns out of the allocator's hands, and gives nothing back.
pub proof fn lemma_after_alloc(s: AllocState)
    requires
        s.wf(),
    ensures
        s.after_alloc().wf(),
        (s.next_frame() is None) <==> s.available() == 0,
        s.after_alloc().available() == (if s.next_frame() is Some {
            s.available() - 1
        } else {
            s.available()
        }),
        forall|p: int| #[trigger] s.after_alloc().holds(p) ==> s.holds(p),
        forall|p: u64| #[trigger] s.lent(p) ==> s.after_alloc().lent(p),
        (s.next_frame() matches Some(p) ==> {
            &&& s.holds(p as int)
            &&& !s.after_alloc().holds(p as int)
            &&& s.after_alloc().lent(p)
            &&& p < 0x1000_0000_0000
        }),
{
    let t = s.after_alloc();
    if s.free.len() > 0 {
        let p = s.free[0];
        assert(t.free =~= s.free.drop_first());
        assert forall|q: int| #[trigger] t.holds(q) implies s.holds(q) by {
            if t.free.contains(q as u64) && 0 <= q < 0x1_0000_0000_0000_0000 {
                let k = choose|k: int| 0 <= k < t.free.len() && t.free[k] == q as u64;
                assert(s.free[k + 1] == q as u64);
            }
        }
        assert(!t.free.contains(p)) by {
            if t.free.contains(p) {
                let k = choose|k: int| 0 <= k < t.free.len() && t.free[k] == p;
                assert(s.free[k + 1] == s.free[0]);
            }
        }
        assert(s.free.contains(p));
        assert forall|q: u64| #[trigger] s.lent(q) implies t.lent(q) by {
            if t.free.contains(q) {
                let k = choose|k: int| 0 <= k < t.free.len() && t.free[k] == q;
                assert(s.free[k + 1] == q);
            }
        }
    } else if s.next < s.end {
        let p = s.next as u64;
        assert forall|q: u64| #[trigger] s.lent(q) implies t.lent(q) by {}
        assert(!t.free.contains(p)) by {
            if t.free.contains(p) {
                let k = choose|k: int| 0 <= k < t.free.len() && t.free[k] == p;
            }
        }
    }
}

/// An owning handle to one physical 4-KiB frame.
pub struct Frame(u64);

impl Frame {
    /// The page number of the frame.
    pub closed spec fn number(&self) -> u64 {
        self.0
    }

    /// Takes the head of the free list, or else the bump pointer; `None` once
    /// the managed region is used up.
    pub fn allocate(frames: &mut FrameAllocator) -> (r: Option<Frame>)
        requires
            old(frames)@.wf(),
        ensures
            final(frames)@.wf(),
            final(frames)@ == old(frames)@.after_alloc(),
            (r matches Some(f) ==> old(frames)@.next_frame() == Some(f.number())),
            (r is None <==> old(frames)@.next_frame() is None),
            (r is None ==> final(frames)@ == old(frames)@),
    {
        frames.take()
    }

    pub fn ppn(&self) -> (r: PhysPageNum)
        ensures
            r.0 == self.number() % 0x1000_0000_0000,
    {
        PhysPageNum::new(self.0)
    }
}

/// Hands out physical frames: first the most recently freed one, else the
/// next page of a bump region that ends before a fixed page.
pub struct FrameAllocator {
    free: VecDeque<u64>,
    next: u64,
    end: u64,
}

impl View for FrameAllocator {
    type V = AllocState;

    closed spec fn view(&self) -> AllocState {
        AllocState { free: self.free@, next: self.next as int, end: self.end as int }
    }
}

impl FrameAllocator {
    /// Manages the whole pages in `[start, end)`: the bump pointer starts at
    /// the page that holds `start`, rounded up.
    pub fn new(start: PhysAddr, end: PhysAddr) -> (r: FrameAllocator)
        requires
            start.0 < 0x100_0000_0000_0000,
            end.0 < 0x100_0000_0000_0000,
        ensures
            r@.wf(),
            r@.free.len() == 0,
            r@.end == page_floor(end.0 as int),
            r@.next == (if page_ceil(start.0 as int) <= page_floor(end.0 as int) {
                page_ceil(start.0 as int)
            } else {
                page_floor(end.0 as int)
            }),
    {
        let lo = start.ceil();
        let hi = end.floor();
        let next = if lo.0 <= hi.0 {
            lo.0
        } else {
            hi.0
        };
        FrameAllocator { free: VecDeque::new(), next, end: hi.0 }
    }

    fn take(&mut self) -> (r: Option<Frame>)
        requires
            old(self)@.wf(),
        ensures
            final(self)@.wf(),
            final(self)@ == old(self)@.after_alloc(),
            (r matches Some(f) ==> old(self)@.next_frame() == Some(f.number())),
            (r is None <==> old(self)@.next_frame() is None),
    {
        proof {
            lemma_after_alloc(self@);
        }
        if let Some(p) = self.free.pop_front() {
            Some(Frame(p))
        } else if self.next < self.end {
            let p = self.next;
            self.next = self.next + 1;
            Some(Frame(p))
        } else {
            None
        }
    }

    /// Returns a frame: it becomes the head of the free list.
    pub fn dealloc(&mut self, f: Frame)
        requires
            old(self)@.wf(),
            old(self)@.lent(f.number()),
        ensures
            final(self)@.wf(),
            final(self)@ == old(self)@.after_free(f.number()),
    {
        let ghost s = self@;
        self.free.push_front(f.0);
        assert(self@.free =~= seq![f.0].add(s.free));
        assert(self@.free.no_duplicates()) by {
            assert forall|i: int, j: int|
                0 <= i < self@.free.len() && 0 <= j < self@.free.len() && i != j implies
                self@.free[i] != self@.free[j] by {
                if i == 0 && j > 0 {
                    assert(s.free.contains(self@.free[j]));
                } else if j == 0 && i > 0 {
                    assert(s.free.contains(self@.free[i]));
                }
            }
        }
    }

    /// Whether at least `n` more frames can be handed out.
    pub fn has_available(&self, n: u64) -> (r: bool)
        requires
            self@.wf(),
        ensures
            r == (self@.available() >= n),
    {
        let f = self.free.len() as u64;
        if f >= n {
            true
        } else {
            self.end - self.next >= n - f
        }
    }
}

} // verus!
