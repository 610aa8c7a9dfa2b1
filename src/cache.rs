//! A single-slot memoization cell.
use vstd::prelude::*;

verus! {

/// Holds either nothing or the last value that was computed for it.
#[derive(Clone, Copy)]
pub struct Cache<T> {
    val: Option<T>,
}

impl<T> View for Cache<T> {
    type V = Option<T>;

    closed spec fn view(&self) -> Option<T> {
        self.val
    }
}

/// The cell's state after one `get_or_else` call that, on a miss, was handed `produced`.
pub open spec fn after_get_or_else<T>(state: Option<T>, produced: T) -> Option<T> {
    match state {
        Some(v) => Some(v),
        None => Some(produced),
    }
}

/// How many of a run of `get_or_else` calls, the i-th of which would be handed
/// `produced[i]` on a miss, find the cell empty and call their producer.
pub open spec fn misses<T>(state: Option<T>, produced: Seq<T>) -> nat
    decreases produced.len(),
{
    if produced.len() == 0 {
        0
    } else {
        let first: nat = if state is None { 1 } else { 0 };
        first + misses(after_get_or_else(state, produced[0]), produced.drop_first())
    }
}

impl<T: Copy> Cache<T> {
    /// An empty cell.
    pub fn new() -> (r: Self)
        ensures
            r@ is None,
    {
        Cache { val: None }
    }

    /// Returns the stored value when there is one, without calling `f`;
    /// otherwise calls `f` once, stores its result and returns it.
    pub fn get_or_else<F: Fn() -> T>(&mut self, f: F) -> (r: T)
        requires
            old(self)@ is None ==> f.requires(()),
        ensures
            old(self)@ is Some ==> r == old(self)@->Some_0,
            old(self)@ is None ==> f.ensures((), r),
            final(self)@ == Some(r),
            final(self)@ == after_get_or_else(old(self)@, r),
    {
        match self.val {
            Some(v) => v,
            None => {
                let v = f();
                self.val = Some(v);
                v
            },
        }
    }

    /// The stored value, if any.
    pub fn get(&self) -> (r: Option<T>)
        ensures
            r == self@,
    {
        self.val
    }

    /// Discards the stored value, whatever the state was.
    pub fn invalidate(&mut self)
        ensures
            final(self)@ is None,
    {
        self.val = None;
    }
}

/// Between two invalidations, a run of `get_or_else` calls calls its producers
/// at most once in all: only the first call can find the cell empty, and none
/// does when the cell starts out holding a value.
pub proof fn lemma_get_or_else_misses_at_most_once<T>(state: Option<T>, produced: Seq<T>)
    ensures
        misses(state, produced) <= 1,
        misses(state, produced) == 1 <==> (state is None && produced.len() > 0),
    decreases produced.len(),
{
    if produced.len() > 0 {
        let next = after_get_or_else(state, produced[0]);
        lemma_get_or_else_misses_at_most_once(next, produced.drop_first());
    }
}

} // verus!
