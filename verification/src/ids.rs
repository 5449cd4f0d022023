use vstd::prelude::*;

verus! {

/// The number counted after `n`, wrapping around after `u64::MAX`.
pub open spec fn next_id(n: u64) -> u64 {
    if n == u64::MAX {
        0
    } else {
        (n + 1) as u64
    }
}

/// Identifier of a buffer.
#[derive(Debug, Clone, Copy, PartialEq, Eq, Hash, PartialOrd, Ord, Structural)]
pub struct BufferId(pub u64);

/// Identifier of a view.
#[derive(Debug, Clone, Copy, PartialEq, Eq, Hash, PartialOrd, Ord, Structural)]
pub struct ViewId(pub u64);

/// Identifier of a window.
#[derive(Debug, Clone, Copy, PartialEq, Eq, Hash, PartialOrd, Ord, Structural)]
pub struct WindowId(pub u64);

/// The identifiers an allocator issues next, one count per kind.
pub ghost struct IdCounters {
    pub buffer: u64,
    pub view: u64,
    pub window: u64,
}

/// Issues identifiers: each kind counts up from 1, wrapping around after `u64::MAX`, so that
/// identifiers issued one after the other differ.
#[derive(Debug, Clone)]
pub struct IdAllocator {
    next_buffer: u64,
    next_view: u64,
    next_window: u64,
}

impl View for IdAllocator {
    type V = IdCounters;

    closed spec fn view(&self) -> IdCounters {
        IdCounters { buffer: self.next_buffer, view: self.next_view, window: self.next_window }
    }
}

impl IdAllocator {
    /// An allocator that issues 1 first, for every kind.
    pub fn new() -> (r: Self)
        ensures
            r@ == (IdCounters { buffer: 1, view: 1, window: 1 }),
    {
        IdAllocator { next_buffer: 1, next_view: 1, next_window: 1 }
    }
}

impl BufferId {
    /// Issues the next buffer identifier of `ids`; the count wraps around after `u64::MAX`.
    pub fn next(ids: &mut IdAllocator) -> (r: Self)
        ensures
            r.0 == old(ids)@.buffer,
            final(ids)@ == (IdCounters { buffer: next_id(old(ids)@.buffer), ..old(ids)@ }),
            old(ids)@.buffer < u64::MAX ==> final(ids)@.buffer > r.0,
    {
        let r = BufferId(ids.next_buffer);
        ids.next_buffer = ids.next_buffer.wrapping_add(1);
        r
    }
}

impl ViewId {
    /// Issues the next view identifier of `ids`; the count wraps around after `u64::MAX`.
    pub fn next(ids: &mut IdAllocator) -> (r: Self)
        ensures
            r.0 == old(ids)@.view,
            final(ids)@ == (IdCounters { view: next_id(old(ids)@.view), ..old(ids)@ }),
            old(ids)@.view < u64::MAX ==> final(ids)@.view > r.0,
    {
        let r = ViewId(ids.next_view);
        ids.next_view = ids.next_view.wrapping_add(1);
        r
    }
}

impl WindowId {
    /// Issues the next window identifier of `ids`; the count wraps around after `u64::MAX`.
    pub fn next(ids: &mut IdAllocator) -> (r: Self)
        ensures
            r.0 == old(ids)@.window,
            final(ids)@ == (IdCounters { window: next_id(old(ids)@.window), ..old(ids)@ }),
            old(ids)@.window < u64::MAX ==> final(ids)@.window > r.0,
    {
        let r = WindowId(ids.next_window);
        ids.next_window = ids.next_window.wrapping_add(1);
        r
    }
}

/// Two identifiers counted one after the other differ.
pub proof fn law_next_id_differs(n: u64)
    ensures
        next_id(n) != n,
        n < u64::MAX ==> next_id(n) > n,
{
}

/// The identifier counted `k` steps after `n`.
pub open spec fn nth_next_id(n: u64, k: nat) -> u64
    decreases k,
{
    if k == 0 {
        n
    } else {
        next_id(nth_next_id(n, (k - 1) as nat))
    }
}

proof fn lemma_nth_next_id(n: u64, k: nat)
    requires
        n + k <= u64::MAX,
    ensures
        nth_next_id(n, k) == n + k,
    decreases k,
{
    if k > 0 {
        lemma_nth_next_id(n, (k - 1) as nat);
    }
}

/// Identifiers that one allocator issues one after another, from the count `n`, are pairwise
/// distinct as long as the count does not wrap around: the `i`-th and the `j`-th differ.
pub proof fn law_issued_ids_distinct(n: u64, i: nat, j: nat)
    requires
        i < j,
        n + j <= u64::MAX,
    ensures
        nth_next_id(n, i) != nth_next_id(n, j),
{
    lemma_nth_next_id(n, i);
    lemma_nth_next_id(n, j);
}

} // verus!
