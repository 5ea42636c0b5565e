//! Interleaving two lists without repeating an item.

use vstd::prelude::*;
use vstd::std_specs::cmp::PartialEqSpec;

verus! {

/// What the contracts of this module ask of `T`: that `==` is the relation
/// that `eq_spec` describes, and that a clone is the value it was made from.
pub open spec fn faithful<T: Clone + PartialEq>() -> bool {
    &&& T::obeys_eq_spec()
    &&& forall|a: T, b: T| #[trigger] cloned(a, b) ==> a == b
}

/// Whether some item of `list` equals `item`.
pub open spec fn holds<T: PartialEq>(list: Seq<T>, item: T) -> bool {
    exists|j: int| 0 <= j < list.len() && #[trigger] list[j].eq_spec(&item)
}

/// The list built in the first `rounds` rounds. Round `i` takes `a[i]`, then
/// `b[i]`, each where there is one, and adds it unless the list holds an equal
/// item already. Where `a[i]` is not added for that reason, `b[i]` is passed
/// over as well.
pub open spec fn interleaved_upto<T: PartialEq>(a: Seq<T>, b: Seq<T>, rounds: nat) -> Seq<T>
    decreases rounds,
{
    if rounds == 0 {
        Seq::empty()
    } else {
        let i = rounds - 1;
        let before = interleaved_upto(a, b, i as nat);
        if i < a.len() && holds(before, a[i]) {
            before
        } else {
            let mid = if i < a.len() {
                before.push(a[i])
            } else {
                before
            };
            if i < b.len() && !holds(mid, b[i]) {
                mid.push(b[i])
            } else {
                mid
            }
        }
    }
}

/// The list built from `a` and `b` in as many rounds as the longer of them has
/// items.
pub open spec fn interleaved<T: PartialEq>(a: Seq<T>, b: Seq<T>) -> Seq<T> {
    interleaved_upto(
        a,
        b,
        if a.len() >= b.len() {
            a.len()
        } else {
            b.len()
        },
    )
}

/// No round adds more than one item of each list.
pub proof fn lemma_interleaved_len<T: PartialEq>(a: Seq<T>, b: Seq<T>, rounds: nat)
    ensures
        interleaved_upto(a, b, rounds).len() <= 2 * rounds,
        interleaved_upto(a, b, rounds).len() <= a.len() + b.len(),
    decreases rounds,
{
    if rounds > 0 {
        lemma_interleaved_len(a, b, (rounds - 1) as nat);
        lemma_interleaved_from(a, b, (rounds - 1) as nat);
    }
}

/// After `rounds` rounds the list holds at most one item for each position
/// below `rounds` of either list.
pub proof fn lemma_interleaved_from<T: PartialEq>(a: Seq<T>, b: Seq<T>, rounds: nat)
    ensures
        interleaved_upto(a, b, rounds).len() <= (if rounds < a.len() {
            rounds
        } else {
            a.len()
        }) + (if rounds < b.len() {
            rounds
        } else {
            b.len()
        }),
    decreases rounds,
{
    if rounds > 0 {
        lemma_interleaved_from(a, b, (rounds - 1) as nat);
    }
}

/// No item of `list` equals another.
pub open spec fn distinct<T: PartialEq>(list: Seq<T>) -> bool {
    forall|i: int, j: int|
        #![trigger list[i], list[j]]
        0 <= i < j < list.len() ==> !list[i].eq_spec(&list[j])
}

/// A list without equal items stays one when an item is added that equals
/// none of them.
pub proof fn lemma_distinct_push<T: PartialEq>(list: Seq<T>, item: T)
    requires
        distinct(list),
        !holds(list, item),
    ensures
        distinct(list.push(item)),
{
    let more = list.push(item);
    assert forall|i: int, j: int|
        #![trigger more[i], more[j]]
        0 <= i < j < more.len() implies !more[i].eq_spec(&more[j]) by {
        if j == list.len() {
            assert(more[i] == list[i]);
            assert(!list[i].eq_spec(&item));
        } else {
            assert(more[i] == list[i] && more[j] == list[j]);
        }
    }
}

/// No two items of the built list are equal.
pub proof fn lemma_interleaved_distinct<T: PartialEq>(a: Seq<T>, b: Seq<T>, rounds: nat)
    ensures
        distinct(interleaved_upto(a, b, rounds)),
    decreases rounds,
{
    if rounds > 0 {
        let k = rounds - 1;
        let before = interleaved_upto(a, b, k as nat);
        lemma_interleaved_distinct(a, b, k as nat);
        if k < a.len() && holds(before, a[k]) {
        } else {
            if k < a.len() {
                lemma_distinct_push(before, a[k]);
            }
            let mid = if k < a.len() {
                before.push(a[k])
            } else {
                before
            };
            if k < b.len() && !holds(mid, b[k]) {
                lemma_distinct_push(mid, b[k]);
            }
        }
    }
}

/// Tells whether some item of `list` equals `item`.
fn contains_item<T: PartialEq>(list: &Vec<T>, item: &T) -> (r: bool)
    ensures
        T::obeys_eq_spec() ==> r == holds(list@, *item),
{
    let mut j: usize = 0;
    while j < list.len()
        invariant
            j <= list.len(),
            T::obeys_eq_spec() ==> forall|k: int| 0 <= k < j ==> !(#[trigger] list@[k]).eq_spec(item),
        decreases list.len() - j,
    {
        if list[j] == *item {
            return true;
        }
        j = j + 1;
    }
    false
}

/// Interleaves `v1` and `v2`: takes their items in turn, one of `v1` and then
/// one of `v2`, and keeps an item unless an equal one was kept before. Where
/// the item of `v1` is not kept for that reason, the item of `v2` beside it is
/// passed over as well. When the shorter list has run out, the rest of the
/// longer is gone through alone.
pub fn interleave_vectors<T: Clone + PartialEq>(v1: &[T], v2: &[T]) -> (r: Vec<T>)
    ensures
        faithful::<T>() ==> r@ == interleaved(v1@, v2@),
        faithful::<T>() ==> r.len() <= v1.len() + v2.len(),
{
    let mut res: Vec<T> = Vec::new();
    let mut i: usize = 0;
    while i < v1.len() || i < v2.len()
        invariant
            faithful::<T>() ==> res@ == interleaved_upto(v1@, v2@, i as nat),
            i <= v1.len() || i <= v2.len(),
        decreases
                (if v1.len() >= v2.len() {
                    v1.len()
                } else {
                    v2.len()
                }) - i,
    {
        let mut skipped = false;
        if i < v1.len() {
            if contains_item(&res, &v1[i]) {
                skipped = true;
            } else {
                let item = v1[i].clone();
                proof {
                    assert(cloned(v1@[i as int], item));
                }
                res.push(item);
            }
        }
        if !skipped && i < v2.len() {
            if !contains_item(&res, &v2[i]) {
                let item = v2[i].clone();
                proof {
                    assert(cloned(v2@[i as int], item));
                }
                res.push(item);
            }
        }
        i = i + 1;
    }
    proof {
        lemma_interleaved_len(
            v1@,
            v2@,
            if v1@.len() >= v2@.len() {
                v1@.len()
            } else {
                v2@.len()
            },
        );
    }
    res
}

} // verus!
