//! Facts about a sequence of groups and the one sequence that they make when
//! they are laid end to end.

use vstd::prelude::*;
use vstd::seq_lib::lemma_flatten_concat;

verus! {

/// Where group `i` starts in the flattened sequence.
pub open spec fn offset<A>(groups: Seq<Seq<A>>, i: int) -> int {
    groups.take(i).flatten().len() as int
}

/// The flattened sequence is what comes before group `i`, then group `i`, then
/// what comes after it.
pub proof fn lemma_split<A>(groups: Seq<Seq<A>>, i: int)
    requires
        0 <= i < groups.len(),
    ensures
        groups.flatten() == groups.take(i).flatten() + groups[i] + groups.skip(i + 1).flatten(),
        offset(groups, i + 1) == offset(groups, i) + groups[i].len(),
{
    let head = groups.take(i);
    let one = seq![groups[i]];
    let tail = groups.skip(i + 1);
    assert(groups =~= head + one + tail);
    lemma_flatten_concat(head + one, tail);
    lemma_flatten_concat(head, one);
    one.lemma_flatten_one_element();
    assert(groups.take(i + 1) =~= head + one);
}

/// The flattened sequence is what comes before group `i`, then the rest.
pub proof fn lemma_cut<A>(groups: Seq<Seq<A>>, i: int)
    requires
        0 <= i <= groups.len(),
    ensures
        groups.flatten() == groups.take(i).flatten() + groups.skip(i).flatten(),
        0 <= offset(groups, i) <= groups.flatten().len(),
{
    assert(groups =~= groups.take(i) + groups.skip(i));
    lemma_flatten_concat(groups.take(i), groups.skip(i));
}

/// Replacing group `i` changes that stretch of the flattened sequence.
pub proof fn lemma_update<A>(groups: Seq<Seq<A>>, i: int, group: Seq<A>)
    requires
        0 <= i < groups.len(),
    ensures
        groups.update(i, group).flatten() == groups.take(i).flatten() + group + groups.skip(i + 1).flatten(),
        groups.flatten() == groups.take(i).flatten() + groups[i] + groups.skip(i + 1).flatten(),
{
    let changed = groups.update(i, group);
    lemma_split(changed, i);
    lemma_split(groups, i);
    assert(changed.take(i) =~= groups.take(i));
    assert(changed.skip(i + 1) =~= groups.skip(i + 1));
}

/// A new group before group `i` appears where group `i` started.
pub proof fn lemma_insert<A>(groups: Seq<Seq<A>>, i: int, group: Seq<A>)
    requires
        0 <= i <= groups.len(),
    ensures
        groups.insert(i, group).flatten() == groups.take(i).flatten() + group + groups.skip(i).flatten(),
        groups.flatten() == groups.take(i).flatten() + groups.skip(i).flatten(),
{
    let changed = groups.insert(i, group);
    lemma_split(changed, i);
    lemma_cut(groups, i);
    assert(changed.take(i) =~= groups.take(i));
    assert(changed.skip(i + 1) =~= groups.skip(i));
}

/// Taking group `i` out takes its stretch out of the flattened sequence.
pub proof fn lemma_remove<A>(groups: Seq<Seq<A>>, i: int)
    requires
        0 <= i < groups.len(),
    ensures
        groups.remove(i).flatten() == groups.take(i).flatten() + groups.skip(i + 1).flatten(),
        groups.flatten() == groups.take(i).flatten() + groups[i] + groups.skip(i + 1).flatten(),
{
    let changed = groups.remove(i);
    lemma_cut(changed, i);
    lemma_split(groups, i);
    assert(changed.take(i) =~= groups.take(i));
    assert(changed.skip(i) =~= groups.skip(i + 1));
}

/// Groups that come later start later.
pub proof fn lemma_offsets_ordered<A>(groups: Seq<Seq<A>>, i: int, k: int)
    requires
        0 <= i <= k <= groups.len(),
    ensures
        offset(groups, i) <= offset(groups, k),
    decreases k - i,
{
    if i < k {
        lemma_offsets_ordered(groups, i, k - 1);
        lemma_split(groups, k - 1);
    }
}

/// Member `j` of group `i` stands at `offset(groups, i) + j`.
pub proof fn lemma_member<A>(groups: Seq<Seq<A>>, i: int, j: int)
    requires
        0 <= i < groups.len(),
        0 <= j < groups[i].len(),
    ensures
        0 <= offset(groups, i) + j < groups.flatten().len(),
        groups.flatten()[offset(groups, i) + j] == groups[i][j],
{
    lemma_split(groups, i);
}

/// Every place of the flattened sequence belongs to a member of a group.
pub proof fn lemma_locate<A>(groups: Seq<Seq<A>>, p: int) -> (at: (int, int))
    requires
        0 <= p < groups.flatten().len(),
    ensures
        0 <= at.0 < groups.len(),
        0 <= at.1 < groups[at.0].len(),
        p == offset(groups, at.0) + at.1,
        groups.flatten()[p] == groups[at.0][at.1],
    decreases groups.len(),
{
    if groups.len() == 0 {
        (0, 0)
    } else {
        let last = groups.len() - 1;
        lemma_split(groups, last);
        assert(groups.skip(last + 1) =~= Seq::<Seq<A>>::empty());
        if p >= offset(groups, last) {
            (last, p - offset(groups, last))
        } else {
            let front = groups.take(last);
            let at = lemma_locate(front, p);
            assert(front.take(at.0) =~= groups.take(at.0));
            at
        }
    }
}

/// Two sequences of groups whose groups have the same lengths have the same
/// offsets.
pub proof fn lemma_same_shape<A, B>(a: Seq<Seq<A>>, b: Seq<Seq<B>>, i: int)
    requires
        a.len() == b.len(),
        forall|k: int| 0 <= k < a.len() ==> a[k].len() == b[k].len(),
        0 <= i <= a.len(),
    ensures
        offset(a, i) == offset(b, i),
    decreases i,
{
    if i == 0 {
        assert(a.take(0) =~= Seq::<Seq<A>>::empty());
        assert(b.take(0) =~= Seq::<Seq<B>>::empty());
    } else {
        lemma_same_shape(a, b, i - 1);
        lemma_split(a, i - 1);
        lemma_split(b, i - 1);
    }
}

} // verus!
