//! Stable sorting of handles under a strict weak order.
//!
//! A handle is a `usize` that stands for an item kept elsewhere: a position
//! in a front, or in a list of records. The order in which handles must
//! come is a relation `precedes(a, b)`: "`a` has to stand before `b`".

use vstd::prelude::*;

verus! {

/// A relation over handles that can be decided at run time.
pub(crate) trait Precedence {
    /// The handles that the relation can be asked about at run time.
    spec fn knows(&self, handle: usize) -> bool;

    /// The relation: whether the first handle has to stand before the second.
    spec fn relation(&self) -> spec_fn(usize, usize) -> bool;

    /// Decides whether `a` has to stand before `b`.
    fn comes_before(&self, a: usize, b: usize) -> (before: bool)
        requires
            self.knows(a),
            self.knows(b),
        ensures
            before == (self.relation())(a, b),
    ;
}

/// Whether `precedes` is a strict weak order: two handles never precede
/// each other, and "does not precede" is transitive.
pub open spec fn strict_weak_order(precedes: spec_fn(usize, usize) -> bool) -> bool {
    &&& forall|a: usize, b: usize| #[trigger] precedes(a, b) ==> !precedes(b, a)
    &&& forall|a: usize, b: usize, c: usize|
        !#[trigger] precedes(a, b) && !#[trigger] precedes(b, c) ==> !precedes(a, c)
}

/// `sorted` with `handle` put in behind the handles at the front of
/// `sorted` that have to stand before it.
pub open spec fn stably_placed(
    precedes: spec_fn(usize, usize) -> bool,
    handle: usize,
    sorted: Seq<usize>,
) -> Seq<usize>
    decreases sorted.len(),
{
    if sorted.len() > 0 && precedes(sorted.first(), handle) {
        seq![sorted.first()] + stably_placed(precedes, handle, sorted.drop_first())
    } else {
        seq![handle] + sorted
    }
}

/// The handles of `handles` in ascending order under `precedes`, handles
/// that do not precede each other staying in the order in which they came:
/// the first handle is put in among the others, sorted.
pub open spec fn stably_sorted(precedes: spec_fn(usize, usize) -> bool, handles: Seq<usize>) -> Seq<
    usize,
>
    decreases handles.len(),
{
    if handles.len() == 0 {
        handles
    } else {
        stably_placed(precedes, handles.first(), stably_sorted(precedes, handles.drop_first()))
    }
}

/// Whether no handle of `handles` has to stand before one that is in
/// front of it.
pub open spec fn ascending(precedes: spec_fn(usize, usize) -> bool, handles: Seq<usize>) -> bool {
    forall|i: int, j: int|
        0 <= i < j < handles.len() ==> !precedes(#[trigger] handles[j], #[trigger] handles[i])
}

/// Whether `a` stands somewhere in `handles` and `b` somewhere behind it.
pub open spec fn stands_before(handles: Seq<usize>, a: usize, b: usize) -> bool {
    exists|p: int, q: int|
        0 <= p < q < handles.len() && #[trigger] handles[p] == a && #[trigger] handles[q] == b
}

/// The handles `0, 1, .., len - 1`.
pub open spec fn first_handles(len: nat) -> Seq<usize> {
    Seq::new(len, |i: int| i as usize)
}

/// Whether `handles` holds each of `0, 1, .., len - 1` exactly once.
pub open spec fn arranges(handles: Seq<usize>, len: nat) -> bool {
    handles.to_multiset() == first_handles(len).to_multiset()
}

/// What an arrangement of `0, 1, .., len - 1` looks like from the inside.
pub proof fn lemma_arrangement(handles: Seq<usize>, len: nat)
    requires
        arranges(handles, len),
        len <= usize::MAX,
    ensures
        handles.len() == len,
        handles.no_duplicates(),
        forall|i: int| 0 <= i < handles.len() ==> #[trigger] handles[i] < len,
        forall|p: usize| p < len ==> #[trigger] handles.contains(p),
        forall|i: int| 0 <= i < handles.len() ==> handles.index_of(#[trigger] handles[i]) == i,
{
    let all = first_handles(len);
    vstd::seq_lib::to_multiset_len(handles);
    vstd::seq_lib::to_multiset_len(all);
    assert(all.no_duplicates());
    all.lemma_multiset_has_no_duplicates();
    handles.lemma_multiset_has_no_duplicates_conv();
    assert forall|i: int| 0 <= i < handles.len() implies #[trigger] handles[i] < len by {
        assert(handles.contains(handles[i]));
        vstd::seq_lib::to_multiset_contains(handles, handles[i]);
        vstd::seq_lib::to_multiset_contains(all, handles[i]);
        let k = choose|k: int| 0 <= k < all.len() && all[k] == handles[i];
        assert(all[k] == k);
    }
    assert forall|p: usize| p < len implies #[trigger] handles.contains(p) by {
        assert(all[p as int] == p);
        assert(all.contains(p));
        vstd::seq_lib::to_multiset_contains(handles, p);
        vstd::seq_lib::to_multiset_contains(all, p);
    }
    assert forall|i: int| 0 <= i < handles.len() implies handles.index_of(#[trigger] handles[i])
        == i by {
        assert(handles.contains(handles[i]));
        let k = handles.index_of(handles[i]);
        assert(0 <= k < handles.len() && handles[k] == handles[i]);
    }
}

/// Putting a handle in adds that handle and nothing else.
pub proof fn lemma_placed_is_permutation(
    precedes: spec_fn(usize, usize) -> bool,
    handle: usize,
    sorted: Seq<usize>,
)
    ensures
        stably_placed(precedes, handle, sorted).to_multiset() == sorted.to_multiset().insert(handle),
        stably_placed(precedes, handle, sorted).len() == sorted.len() + 1,
    decreases sorted.len(),
{
    lemma_one_in_front(handle, sorted);
    if sorted.len() > 0 && precedes(sorted.first(), handle) {
        let tail = sorted.drop_first();
        let placed = stably_placed(precedes, handle, tail);
        lemma_placed_is_permutation(precedes, handle, tail);
        lemma_one_in_front(sorted.first(), placed);
        lemma_one_in_front(sorted.first(), tail);
        assert(sorted == seq![sorted.first()] + tail);
        assert(tail.to_multiset().insert(handle).insert(sorted.first()) =~= tail.to_multiset().insert(
            sorted.first(),
        ).insert(handle));
    }
}

/// A sequence with one more handle in front holds that handle once more.
proof fn lemma_one_in_front(handle: usize, rest: Seq<usize>)
    ensures
        (seq![handle] + rest).to_multiset() == rest.to_multiset().insert(handle),
{
    broadcast use vstd::multiset::group_multiset_axioms;

    vstd::seq_lib::lemma_multiset_commutative(seq![handle], rest);
    vstd::seq_lib::to_multiset_build(Seq::<usize>::empty(), handle);
    assert(Seq::<usize>::empty().push(handle) == seq![handle]);
    assert(Seq::<usize>::empty().to_multiset() =~= vstd::multiset::Multiset::<usize>::empty()) by {
        vstd::seq_lib::to_multiset_len(Seq::<usize>::empty());
    }
    assert(seq![handle].to_multiset().add(rest.to_multiset()) =~= rest.to_multiset().insert(handle));
}

/// Sorting rearranges: every handle stands in the result as often as it
/// stood in the input.
pub proof fn lemma_sorted_is_permutation(precedes: spec_fn(usize, usize) -> bool, handles: Seq<usize>)
    ensures
        stably_sorted(precedes, handles).to_multiset() == handles.to_multiset(),
        stably_sorted(precedes, handles).len() == handles.len(),
    decreases handles.len(),
{
    if handles.len() > 0 {
        let tail = handles.drop_first();
        lemma_sorted_is_permutation(precedes, tail);
        lemma_placed_is_permutation(precedes, handles.first(), stably_sorted(precedes, tail));
        lemma_one_in_front(handles.first(), tail);
        assert(handles == seq![handles.first()] + tail);
    }
}

/// Sorting keeps an arrangement of `0, 1, .., len - 1` an arrangement.
pub proof fn lemma_sorted_arranges(
    precedes: spec_fn(usize, usize) -> bool,
    handles: Seq<usize>,
    len: nat,
)
    requires
        arranges(handles, len),
    ensures
        arranges(stably_sorted(precedes, handles), len),
{
    lemma_sorted_is_permutation(precedes, handles);
}

/// Sorting neither adds a handle nor loses one.
pub proof fn lemma_sorted_has_same_handles(
    precedes: spec_fn(usize, usize) -> bool,
    handles: Seq<usize>,
    handle: usize,
)
    ensures
        stably_sorted(precedes, handles).contains(handle) == handles.contains(handle),
{
    lemma_sorted_is_permutation(precedes, handles);
    vstd::seq_lib::to_multiset_contains(stably_sorted(precedes, handles), handle);
    vstd::seq_lib::to_multiset_contains(handles, handle);
}

/// Putting a handle into an ascending sequence leaves it ascending.
pub proof fn lemma_placed_is_ascending(
    precedes: spec_fn(usize, usize) -> bool,
    handle: usize,
    sorted: Seq<usize>,
)
    requires
        strict_weak_order(precedes),
        ascending(precedes, sorted),
    ensures
        ascending(precedes, stably_placed(precedes, handle, sorted)),
    decreases sorted.len(),
{
    let placed = stably_placed(precedes, handle, sorted);
    if sorted.len() > 0 && precedes(sorted.first(), handle) {
        let head = sorted.first();
        let tail = sorted.drop_first();
        let inner = stably_placed(precedes, handle, tail);
        assert(ascending(precedes, tail)) by {
            assert forall|i: int, j: int| 0 <= i < j < tail.len() implies !precedes(
                #[trigger] tail[j],
                #[trigger] tail[i],
            ) by {
                assert(tail[i] == sorted[i + 1] && tail[j] == sorted[j + 1]);
            }
        }
        lemma_placed_is_ascending(precedes, handle, tail);
        lemma_placed_is_permutation(precedes, handle, tail);
        assert forall|i: int, j: int| 0 <= i < j < placed.len() implies !precedes(
            #[trigger] placed[j],
            #[trigger] placed[i],
        ) by {
            assert(placed[j] == inner[j - 1]);
            if i > 0 {
                assert(placed[i] == inner[i - 1]);
            } else {
                assert(placed[i] == head);
                let later = inner[j - 1];
                assert(inner.contains(later));
                if later != handle {
                    broadcast use vstd::multiset::group_multiset_axioms;

                    vstd::seq_lib::to_multiset_contains(inner, later);
                    vstd::seq_lib::to_multiset_contains(tail, later);
                    assert(tail.contains(later));
                    let k = choose|k: int| 0 <= k < tail.len() && tail[k] == later;
                    assert(sorted[k + 1] == later);
                    assert(sorted[0] == head);
                }
            }
        }
    } else {
        assert forall|i: int, j: int| 0 <= i < j < placed.len() implies !precedes(
            #[trigger] placed[j],
            #[trigger] placed[i],
        ) by {
            assert(placed[j] == sorted[j - 1]);
            if i > 0 {
                assert(placed[i] == sorted[i - 1]);
            } else {
                assert(placed[i] == handle);
                assert(!precedes(sorted.first(), handle));
                if j > 1 {
                    assert(!precedes(sorted[j - 1], sorted[0]));
                }
            }
        }
    }
}

/// Under a strict weak order the result of sorting is ascending.
pub proof fn lemma_sorted_is_ascending(precedes: spec_fn(usize, usize) -> bool, handles: Seq<usize>)
    requires
        strict_weak_order(precedes),
    ensures
        ascending(precedes, stably_sorted(precedes, handles)),
    decreases handles.len(),
{
    if handles.len() > 0 {
        lemma_sorted_is_ascending(precedes, handles.drop_first());
        lemma_placed_is_ascending(
            precedes,
            handles.first(),
            stably_sorted(precedes, handles.drop_first()),
        );
    }
}

/// Putting a handle in leaves the others in their order.
proof fn lemma_placed_keeps_order(
    precedes: spec_fn(usize, usize) -> bool,
    handle: usize,
    sorted: Seq<usize>,
    a: usize,
    b: usize,
)
    requires
        stands_before(sorted, a, b),
    ensures
        stands_before(stably_placed(precedes, handle, sorted), a, b),
    decreases sorted.len(),
{
    let placed = stably_placed(precedes, handle, sorted);
    let (p, q) = choose|p: int, q: int|
        0 <= p < q < sorted.len() && #[trigger] sorted[p] == a && #[trigger] sorted[q] == b;
    if precedes(sorted.first(), handle) {
        let tail = sorted.drop_first();
        let inner = stably_placed(precedes, handle, tail);
        if p == 0 {
            assert(tail[q - 1] == b);
            assert(tail.contains(b));
            lemma_placed_is_permutation(precedes, handle, tail);
            broadcast use vstd::multiset::group_multiset_axioms;

            vstd::seq_lib::to_multiset_contains(inner, b);
            vstd::seq_lib::to_multiset_contains(tail, b);
            assert(inner.contains(b));
            let r = choose|r: int| 0 <= r < inner.len() && inner[r] == b;
            assert(placed[0] == a && placed[r + 1] == b);
        } else {
            assert(tail[p - 1] == a && tail[q - 1] == b);
            assert(stands_before(tail, a, b));
            lemma_placed_keeps_order(precedes, handle, tail, a, b);
            let (r, t) = choose|r: int, t: int|
                0 <= r < t < inner.len() && #[trigger] inner[r] == a && #[trigger] inner[t] == b;
            assert(placed[r + 1] == a && placed[t + 1] == b);
        }
    } else {
        assert(placed[p + 1] == a && placed[q + 1] == b);
    }
}

/// A handle is put in before every handle that does not have to stand
/// before it.
proof fn lemma_placed_goes_first(
    precedes: spec_fn(usize, usize) -> bool,
    handle: usize,
    sorted: Seq<usize>,
    other: usize,
)
    requires
        sorted.contains(other),
        !precedes(other, handle),
    ensures
        stands_before(stably_placed(precedes, handle, sorted), handle, other),
    decreases sorted.len(),
{
    let placed = stably_placed(precedes, handle, sorted);
    let k = choose|k: int| 0 <= k < sorted.len() && sorted[k] == other;
    if precedes(sorted.first(), handle) {
        let tail = sorted.drop_first();
        let inner = stably_placed(precedes, handle, tail);
        assert(k > 0);
        assert(tail[k - 1] == other);
        lemma_placed_goes_first(precedes, handle, tail, other);
        let (r, t) = choose|r: int, t: int|
            0 <= r < t < inner.len() && #[trigger] inner[r] == handle && #[trigger] inner[t]
                == other;
        assert(placed[r + 1] == handle && placed[t + 1] == other);
    } else {
        assert(placed[0] == handle && placed[k + 1] == other);
    }
}

/// Sorting is stable: of two handles, the one that came first stands
/// first in the result, unless the other has to stand before it.
pub proof fn lemma_sorted_is_stable(
    precedes: spec_fn(usize, usize) -> bool,
    handles: Seq<usize>,
    i: int,
    j: int,
)
    requires
        0 <= i < j < handles.len(),
        !precedes(handles[j], handles[i]),
    ensures
        stands_before(stably_sorted(precedes, handles), handles[i], handles[j]),
    decreases handles.len(),
{
    let tail = handles.drop_first();
    let inner = stably_sorted(precedes, tail);
    assert(tail[j - 1] == handles[j]);
    if i == 0 {
        assert(tail.contains(handles[j]));
        lemma_sorted_has_same_handles(precedes, tail, handles[j]);
        lemma_placed_goes_first(precedes, handles[0], inner, handles[j]);
    } else {
        assert(tail[i - 1] == handles[i]);
        lemma_sorted_is_stable(precedes, tail, i - 1, j - 1);
        lemma_placed_keeps_order(precedes, handles.first(), inner, handles[i], handles[j]);
    }
}

/// Two sequences merged: at each step the first handle of `right` goes
/// next where it has to stand before the first handle of `left`, and the
/// first handle of `left` goes next otherwise.
pub open spec fn stably_merged(
    precedes: spec_fn(usize, usize) -> bool,
    left: Seq<usize>,
    right: Seq<usize>,
) -> Seq<usize>
    decreases left.len() + right.len(),
{
    if left.len() == 0 {
        right
    } else if right.len() == 0 {
        left
    } else if precedes(right.first(), left.first()) {
        seq![right.first()] + stably_merged(precedes, left, right.drop_first())
    } else {
        seq![left.first()] + stably_merged(precedes, left.drop_first(), right)
    }
}

/// To put a handle into a merged sequence is to put it into the left one
/// and to merge then.
proof fn lemma_placed_into_merged(
    precedes: spec_fn(usize, usize) -> bool,
    handle: usize,
    left: Seq<usize>,
    right: Seq<usize>,
)
    requires
        strict_weak_order(precedes),
    ensures
        stably_placed(precedes, handle, stably_merged(precedes, left, right)) == stably_merged(
            precedes,
            stably_placed(precedes, handle, left),
            right,
        ),
    decreases left.len() + right.len(),
{
    let merged = stably_merged(precedes, left, right);
    let placed = stably_placed(precedes, handle, left);
    if left.len() == 0 {
        assert(placed == seq![handle]);
        assert(placed.first() == handle);
        assert(placed.drop_first() == Seq::<usize>::empty());
        if right.len() > 0 {
            if precedes(right.first(), handle) {
                lemma_placed_into_merged(precedes, handle, left, right.drop_first());
                assert(stably_merged(precedes, left, right.drop_first()) == right.drop_first());
            } else {
                assert(stably_merged(precedes, placed.drop_first(), right) == right);
            }
        }
    } else if right.len() == 0 {
        lemma_placed_is_permutation(precedes, handle, left);
    } else {
        let lf = left.first();
        let rf = right.first();
        lemma_placed_is_permutation(precedes, handle, left);
        if precedes(rf, lf) {
            let rest = stably_merged(precedes, left, right.drop_first());
            assert(merged == seq![rf] + rest);
            assert(merged.first() == rf);
            assert(merged.drop_first() == rest);
            if precedes(rf, handle) {
                lemma_placed_into_merged(precedes, handle, left, right.drop_first());
                assert(precedes(rf, placed.first()));
            } else {
                assert(!precedes(lf, handle)) by {
                    if precedes(lf, handle) {
                        assert(!precedes(handle, lf));
                        assert(!precedes(rf, handle) && !precedes(handle, lf));
                    }
                }
                assert(placed == seq![handle] + left);
                assert(placed.first() == handle);
                assert(placed.drop_first() == left);
            }
        } else {
            let rest = stably_merged(precedes, left.drop_first(), right);
            assert(merged == seq![lf] + rest);
            assert(merged.first() == lf);
            assert(merged.drop_first() == rest);
            if precedes(lf, handle) {
                lemma_placed_into_merged(precedes, handle, left.drop_first(), right);
                let inner = stably_placed(precedes, handle, left.drop_first());
                assert(placed == seq![lf] + inner);
                assert(placed.first() == lf);
                assert(placed.drop_first() == inner);
            } else {
                assert(!precedes(rf, lf) && !precedes(lf, handle));
                assert(placed == seq![handle] + left);
                assert(placed.first() == handle);
                assert(placed.drop_first() == left);
            }
        }
    }
}

/// To sort two sequences one behind the other is to sort each and to
/// merge the two.
pub proof fn lemma_sorted_is_merged(
    precedes: spec_fn(usize, usize) -> bool,
    left: Seq<usize>,
    right: Seq<usize>,
)
    requires
        strict_weak_order(precedes),
    ensures
        stably_sorted(precedes, left + right) == stably_merged(
            precedes,
            stably_sorted(precedes, left),
            stably_sorted(precedes, right),
        ),
    decreases left.len(),
{
    if left.len() == 0 {
        assert(left + right == right);
    } else {
        let whole = left + right;
        assert(whole.first() == left.first());
        assert(whole.drop_first() == left.drop_first() + right);
        lemma_sorted_is_merged(precedes, left.drop_first(), right);
        lemma_placed_into_merged(
            precedes,
            left.first(),
            stably_sorted(precedes, left.drop_first()),
            stably_sorted(precedes, right),
        );
    }
}

/// Builds the handles `0, 1, .., len - 1`, in this order.
pub(crate) fn handles_in_order(len: usize) -> (handles: Vec<usize>)
    ensures
        handles@ == first_handles(len as nat),
{
    let mut handles: Vec<usize> = Vec::new();
    let mut next: usize = 0;
    while next < len
        invariant
            next <= len,
            handles@ == first_handles(next as nat),
        decreases len - next,
    {
        handles.push(next);
        next = next + 1;
        assert(handles@ == first_handles(next as nat));
    }
    handles
}

/// Merges two lists of handles.
fn merge<P: Precedence>(left: &Vec<usize>, right: &Vec<usize>, by: &P) -> (merged: Vec<usize>)
    requires
        forall|i: int| 0 <= i < left@.len() ==> by.knows(#[trigger] left@[i]),
        forall|i: int| 0 <= i < right@.len() ==> by.knows(#[trigger] right@[i]),
    ensures
        merged@ == stably_merged(by.relation(), left@, right@),
        forall|i: int| 0 <= i < merged@.len() ==> by.knows(#[trigger] merged@[i]),
{
    let ghost precedes = by.relation();
    let mut merged: Vec<usize> = Vec::new();
    let mut taken_left: usize = 0;
    let mut taken_right: usize = 0;
    proof {
        assert(left@.skip(0) == left@);
        assert(right@.skip(0) == right@);
    }
    while taken_left < left.len() || taken_right < right.len()
        invariant
            taken_left <= left@.len(),
            taken_right <= right@.len(),
            precedes == by.relation(),
            forall|i: int| 0 <= i < left@.len() ==> by.knows(#[trigger] left@[i]),
            forall|i: int| 0 <= i < right@.len() ==> by.knows(#[trigger] right@[i]),
            forall|i: int| 0 <= i < merged@.len() ==> by.knows(#[trigger] merged@[i]),
            merged@ + stably_merged(
                precedes,
                left@.skip(taken_left as int),
                right@.skip(taken_right as int),
            ) == stably_merged(precedes, left@, right@),
        decreases (left@.len() - taken_left) + (right@.len() - taken_right),
    {
        let ghost rest_left = left@.skip(taken_left as int);
        let ghost rest_right = right@.skip(taken_right as int);
        let from_right: bool = if taken_left == left.len() {
            true
        } else if taken_right == right.len() {
            false
        } else {
            by.comes_before(right[taken_right], left[taken_left])
        };
        if from_right {
            proof {
                let tail = stably_merged(precedes, rest_left, rest_right.drop_first());
                assert(rest_right.drop_first() == right@.skip(taken_right + 1));
                assert(stably_merged(precedes, rest_left, rest_right) == seq![rest_right.first()]
                    + tail);
                assert(merged@ + (seq![rest_right.first()] + tail) == merged@.push(
                    rest_right.first(),
                ) + tail);
            }
            merged.push(right[taken_right]);
            taken_right = taken_right + 1;
        } else {
            proof {
                let tail = stably_merged(precedes, rest_left.drop_first(), rest_right);
                assert(rest_left.drop_first() == left@.skip(taken_left + 1));
                assert(stably_merged(precedes, rest_left, rest_right) == seq![rest_left.first()]
                    + tail);
                assert(merged@ + (seq![rest_left.first()] + tail) == merged@.push(rest_left.first())
                    + tail);
            }
            merged.push(left[taken_left]);
            taken_left = taken_left + 1;
        }
    }
    proof {
        assert(merged@ + Seq::<usize>::empty() == merged@);
    }
    merged
}

/// Sorts the handles that stand from `from` up to `to`.
fn sort_range<P: Precedence>(handles: &Vec<usize>, from: usize, to: usize, by: &P) -> (sorted: Vec<
    usize,
>)
    requires
        from <= to <= handles@.len(),
        strict_weak_order(by.relation()),
        forall|i: int| 0 <= i < handles@.len() ==> by.knows(#[trigger] handles@[i]),
    ensures
        sorted@ == stably_sorted(by.relation(), handles@.subrange(from as int, to as int)),
        forall|i: int| 0 <= i < sorted@.len() ==> by.knows(#[trigger] sorted@[i]),
    decreases to - from,
{
    let ghost precedes = by.relation();
    let ghost range = handles@.subrange(from as int, to as int);
    let mut sorted: Vec<usize> = Vec::new();
    if to - from == 1 {
        sorted.push(handles[from]);
        proof {
            assert(range.drop_first() == Seq::<usize>::empty());
            assert(stably_sorted(precedes, range.drop_first()) == Seq::<usize>::empty());
            assert(sorted@ == seq![range.first()] + Seq::<usize>::empty());
        }
    } else if to - from > 1 {
        let middle: usize = from + (to - from) / 2;
        let left = sort_range(handles, from, middle, by);
        let right = sort_range(handles, middle, to, by);
        proof {
            let low = handles@.subrange(from as int, middle as int);
            let high = handles@.subrange(middle as int, to as int);
            assert(low + high == range);
            lemma_sorted_is_merged(precedes, low, high);
        }
        sorted = merge(&left, &right, by);
    }
    sorted
}

/// Sorts `handles` in place: ascending under the relation of `by`, and
/// stable.
pub(crate) fn sort_stably<P: Precedence>(handles: &mut Vec<usize>, by: &P)
    requires
        strict_weak_order(by.relation()),
        forall|i: int| 0 <= i < old(handles)@.len() ==> by.knows(#[trigger] old(handles)@[i]),
    ensures
        final(handles)@ == stably_sorted(by.relation(), old(handles)@),
{
    let sorted = sort_range(handles, 0, handles.len(), by);
    proof {
        assert(handles@.subrange(0, handles@.len() as int) == handles@);
    }
    *handles = sorted;
}

} // verus!
