//! Order laws of the list model.  Every mutator's contract pins how the
//! list view changes; these lemmas spell out what a run of such calls
//! yields, so a reader sees the queue disciplines stated, not only implied.
use vstd::prelude::*;

verus! {

/// First-in, first-out.  Pushing values builds the view by appending at
/// the tail (the `push` contract), and each head pop yields the first of
/// the remaining view and drops it (the `pop_list_head` contract).  So
/// over a view holding the pushed pairs in order, the state after `i`
/// head pops is the view with its first `i` pairs gone, and the next pop
/// yields exactly the `i`-th pushed pair.
pub proof fn lemma_fifo_pops<A>(pushed: Seq<A>, i: int)
    requires
        0 <= i < pushed.len(),
    ensures
        pushed.skip(i)[0] == pushed[i],
        pushed.skip(i).drop_first() == pushed.skip(i + 1),
{
    assert(pushed.skip(i).drop_first() =~= pushed.skip(i + 1));
}

/// Last-in, first-out.  Each tail pop yields the last of the remaining
/// view and drops it (the `pop_list_tail` contract).  So after `i` tail
/// pops of a view holding the pushed pairs, the next pop yields the
/// `i`-th pair counted from the end.
pub proof fn lemma_lifo_pops<A>(pushed: Seq<A>, i: int)
    requires
        0 <= i < pushed.len(),
    ensures
        pushed.take(pushed.len() - i).last() == pushed[pushed.len() - 1 - i],
        pushed.take(pushed.len() - i).drop_last() == pushed.take(pushed.len() - (i + 1)),
{
    assert(pushed.take(pushed.len() - i).drop_last() =~= pushed.take(pushed.len() - (i + 1)));
}

} // verus!
