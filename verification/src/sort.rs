//! Stable order by a key.
use vstd::prelude::*;

verus! {

/// Whether the item at place `a` comes before the one at place `b`: by its key, and by
/// its place where the keys are equal.
pub open spec fn comes_before(keys: Seq<i128>, a: int, b: int) -> bool {
    keys[a] < keys[b] || (keys[a] == keys[b] && a < b)
}

/// Whether `order` names every place of `keys` once, the least key first and equal keys
/// as they stand.
pub open spec fn is_order(order: Seq<usize>, keys: Seq<i128>) -> bool {
    &&& order.len() == keys.len()
    &&& forall|i: int| 0 <= i < order.len() ==> 0 <= #[trigger] order[i] < keys.len()
    &&& forall|i: int, j: int|
        0 <= i < j < order.len() ==> comes_before(keys, order[i] as int, order[j] as int)
}

/// The places of some keys, the least key first and equal keys as they stand.
pub fn order(keys: &Vec<i128>) -> (r: Vec<usize>)
    ensures
        is_order(r@, keys@),
{
    let mut r: Vec<usize> = Vec::new();
    let mut i: usize = 0;
    while i < keys.len()
        invariant
            i <= keys.len(),
            r.len() == i,
            forall|k: int| 0 <= k < r.len() ==> 0 <= #[trigger] r@[k] < i,
            forall|a: int, b: int|
                0 <= a < b < r.len() ==> comes_before(keys@, r@[a] as int, r@[b] as int),
        decreases keys.len() - i,
    {
        let mut pos: usize = r.len();
        while pos > 0 && keys[r[pos - 1]] > keys[i]
            invariant
                pos <= r.len() == i,
                i < keys.len(),
                forall|k: int| 0 <= k < r.len() ==> 0 <= #[trigger] r@[k] < i,
                forall|k: int| pos <= k < r.len() ==> keys@[#[trigger] r@[k] as int] > keys@[i as int],
            decreases pos,
        {
            pos = pos - 1;
        }
        let ghost had = r@;
        r.insert(pos, i);
        proof {
            assert forall|k: int| 0 <= k < pos implies keys@[#[trigger] had[k] as int]
                <= keys@[i as int] by {
                if k < pos - 1 {
                    assert(comes_before(keys@, had[k] as int, had[pos - 1] as int));
                }
            }
            assert forall|a: int, b: int| 0 <= a < b < r@.len() implies comes_before(
                keys@,
                r@[a] as int,
                r@[b] as int,
            ) by {
                let x = if a < pos {
                    a
                } else {
                    a - 1
                };
                let y = if b < pos {
                    b
                } else {
                    b - 1
                };
                if a != pos && b != pos {
                    assert(comes_before(keys@, had[x] as int, had[y] as int));
                }
            }
        }
        i = i + 1;
    }
    r
}

/// Every place is named: no item is lost in the order.
pub proof fn order_names_every_place(order: Seq<usize>, keys: Seq<i128>, place: int)
    requires
        is_order(order, keys),
        0 <= place < keys.len(),
    ensures
        exists|i: int| 0 <= i < order.len() && #[trigger] order[i] == place,
{
    let places = order.map_values(|p: usize| p as int);
    assert(places.no_duplicates()) by {
        assert forall|a: int, b: int| 0 <= a < places.len() && 0 <= b < places.len() && a
            != b implies places[a] != places[b] by {
            if a < b {
                assert(comes_before(keys, order[a] as int, order[b] as int));
            } else {
                assert(comes_before(keys, order[b] as int, order[a] as int));
            }
        }
    }
    let all = vstd::set_lib::set_int_range(0, keys.len() as int);
    vstd::set_lib::lemma_int_range(0, keys.len() as int);
    places.unique_seq_to_set();
    assert(places.to_set().subset_of(all)) by {
        assert forall|p: int| places.to_set().contains(p) implies all.contains(p) by {
            let k = choose|k: int| 0 <= k < places.len() && places[k] == p;
            assert(0 <= order[k] < keys.len());
        }
    }
    vstd::set_lib::lemma_subset_equality(places.to_set(), all);
    assert(all.contains(place));
    assert(places.to_set().contains(place));
    let k = choose|k: int| 0 <= k < places.len() && places[k] == place;
    assert(order[k] == place);
}

/// No place is named before one with a lesser key, and places with equal keys stand as they
/// did.
pub proof fn the_least_key_stands_first(order: Seq<usize>, keys: Seq<i128>, i: int, j: int)
    requires
        is_order(order, keys),
        0 <= i < j < order.len(),
    ensures
        keys[order[i] as int] <= keys[order[j] as int],
        keys[order[i] as int] == keys[order[j] as int] ==> order[i] < order[j],
{
    assert(comes_before(keys, order[i] as int, order[j] as int));
}

} // verus!
