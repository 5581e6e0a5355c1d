use vstd::prelude::*;

verus! {

/// Working through `all` from the front: `left` is what is left after
/// `done` items, and `rest` is `left` without its first. Then that first is
/// item `done` of `all`, and `rest` is what is left after one more.
pub proof fn lemma_first_taken<A>(all: Seq<A>, done: int, left: Seq<A>, rest: Seq<A>)
    requires
        0 <= done <= all.len(),
        left == all.skip(done),
        left.len() > 0,
        rest.len() == left.len() - 1,
        forall|j: int| 0 <= j < rest.len() ==> #[trigger] rest[j] == left[j + 1],
    ensures
        done < all.len(),
        left[0] == all[done],
        rest == all.skip(done + 1),
        all.take(done + 1).drop_last() == all.take(done),
        all.take(done + 1).last() == all[done],
{
    assert(rest =~= all.skip(done + 1)) by {
        assert forall|j: int| 0 <= j < rest.len() implies rest[j] == all.skip(done + 1)[j] by {
            assert(left[j + 1] == all[done + 1 + j]);
        }
    }
    assert(all.take(done + 1).drop_last() =~= all.take(done));
}

} // verus!
