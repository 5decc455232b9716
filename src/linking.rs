//! Linking the lattice: the nodes sorted by expiry, parity and strike give
//! each node's counterpart by binary search and its neighbours by strike
//! from the adjacent places.
use vstd::prelude::*;

use crate::options_chain::{
    LatticePointer, LedgerXOptionsContract, adjacent_link, counterpart, down_link, keys_of,
    same_series, up_link,
};

verus! {

broadcast use vstd::seq_lib::group_to_multiset_ensures;

/// The place of a node in the sort: expiry, parity, strike, then its index.
pub type Place = (i64, bool, u64, usize);

/// Lexicographic order on places (`false` before `true`), as std orders tuples.
pub open spec fn place_lt(a: Place, b: Place) -> bool {
    a.0 < b.0 || (a.0 == b.0 && ((!a.1 && b.1) || (a.1 == b.1 && (a.2 < b.2 || (a.2 == b.2 && a.3
        < b.3)))))
}

pub open spec fn place_le(a: Place, b: Place) -> bool {
    place_lt(a, b) || a == b
}

pub open spec fn sorted_places(v: Seq<Place>) -> bool {
    forall|p: int, q: int| 0 <= p < q < v.len() ==> place_le(#[trigger] v[p], #[trigger] v[q])
}

/// The place of node `i`.
pub open spec fn place_of(keys: Seq<(i64, u64, bool)>, i: int) -> Place {
    (keys[i].0, keys[i].2, keys[i].1, i as usize)
}

/// Every place in `v` is the place of a node, and every node has a place.
pub open spec fn places_of(v: Seq<Place>, keys: Seq<(i64, u64, bool)>) -> bool {
    &&& forall|q: int| 0 <= q < v.len() ==> (#[trigger] v[q]).3 < keys.len() && v[q] == place_of(keys, v[q].3 as int)
    &&& forall|i: int| 0 <= i < keys.len() ==> v.contains(#[trigger] place_of(keys, i))
}

/// Relies on `slice::sort_unstable`: afterwards the items are the same
/// items, in ascending order (tuples order lexicographically).
#[verifier::external_body]
fn sort_places(v: &mut Vec<Place>)
    ensures
        final(v)@.to_multiset() == old(v)@.to_multiset(),
        sorted_places(final(v)@),
{
    v.sort_unstable();
}

fn place_less(a: Place, b: Place) -> (r: bool)
    ensures
        r == place_lt(a, b),
{
    a.0 < b.0 || (a.0 == b.0 && ((!a.1 && b.1) || (a.1 == b.1 && (a.2 < b.2 || (a.2 == b.2 && a.3 < b.3)))))
}

/// The first place not below `t`.
fn lower_bound(v: &Vec<Place>, t: Place) -> (r: usize)
    requires
        sorted_places(v@),
    ensures
        r <= v@.len(),
        forall|q: int| 0 <= q < r ==> place_lt(#[trigger] v@[q], t),
        forall|q: int| r <= q < v@.len() ==> !place_lt(#[trigger] v@[q], t),
{
    let mut lo: usize = 0;
    let mut hi: usize = v.len();
    while lo < hi
        invariant
            lo <= hi <= v@.len(),
            sorted_places(v@),
            forall|q: int| 0 <= q < lo ==> place_lt(#[trigger] v@[q], t),
            forall|q: int| hi <= q < v@.len() ==> !place_lt(#[trigger] v@[q], t),
        decreases hi - lo,
    {
        let mid = lo + (hi - lo) / 2;
        if place_less(v[mid], t) {
            assert forall|q: int| 0 <= q <= mid implies place_lt(#[trigger] v@[q], t) by {
                if q < mid {
                    assert(place_le(v@[q], v@[mid as int]));
                }
            }
            lo = mid + 1;
        } else {
            assert forall|q: int| mid <= q < v@.len() implies !place_lt(#[trigger] v@[q], t) by {
                if q > mid {
                    assert(place_le(v@[mid as int], v@[q]));
                }
            }
            hi = mid;
        }
    }
    lo
}

/// A node whose place is above that of `v[k]` stands after `k`.
proof fn lemma_after(v: Seq<Place>, k: int, w: Place)
    requires
        sorted_places(v),
        0 <= k < v.len(),
        place_lt(v[k], w),
        v.contains(w),
    ensures
        exists|q: int| k < q < v.len() && v[q] == w,
{
    let q = choose|q: int| 0 <= q < v.len() && v[q] == w;
    if q < k {
        assert(place_le(v[q], v[k]));
    }
}

/// A node whose place is below that of `v[k]` stands before `k`.
proof fn lemma_before(v: Seq<Place>, k: int, w: Place)
    requires
        sorted_places(v),
        0 <= k < v.len(),
        place_lt(w, v[k]),
        v.contains(w),
    ensures
        exists|q: int| 0 <= q < k && v[q] == w,
{
    let q = choose|q: int| 0 <= q < v.len() && v[q] == w;
    if q > k {
        assert(place_le(v[k], v[q]));
    }
}

proof fn lemma_up_from_sorted(v: Seq<Place>, keys: Seq<(i64, u64, bool)>, k: int, m: int)
    requires
        sorted_places(v),
        places_of(v, keys),
        0 <= k < m <= v.len(),
        forall|q: int| k < q < m ==> (#[trigger] v[q]).0 == v[k].0 && v[q].1 == v[k].1 && v[q].2 == v[k].2,
        m < v.len() ==> !(v[m].0 == v[k].0 && v[m].1 == v[k].1 && v[m].2 == v[k].2),
    ensures
        up_link(
            keys,
            v[k].3 as int,
            if m < v.len() && v[m].0 == v[k].0 && v[m].1 == v[k].1 {
                Some(v[m].3)
            } else {
                None
            },
        ),
{
    let i = v[k].3 as int;
    assert(v[k] == place_of(keys, i));
    if m < v.len() {
        assert(place_le(v[k], v[m])) by {
            assert(place_le(v[k], v[m]));
        }
        assert(v[m] == place_of(keys, v[m].3 as int));
    }
    assert forall|t: int|
        0 <= t < keys.len() && same_series(keys[i], #[trigger] keys[t]) && keys[t].1 > keys[i].1 implies m
        < v.len() && v[m].0 == v[k].0 && v[m].1 == v[k].1 && keys[t].1 >= v[m].2 by {
        let w = place_of(keys, t);
        assert(v.contains(w));
        assert(place_lt(v[k], w));
        lemma_after(v, k, w);
        let q = choose|q: int| k < q < v.len() && v[q] == w;
        assert(q >= m);
        if q > m {
            assert(place_le(v[m], v[q]));
        }
    }
}

proof fn lemma_down_from_sorted(v: Seq<Place>, keys: Seq<(i64, u64, bool)>, k: int, m: int)
    requires
        sorted_places(v),
        places_of(v, keys),
        0 <= m <= k < v.len(),
        forall|q: int| m <= q < k ==> (#[trigger] v[q]).0 == v[k].0 && v[q].1 == v[k].1 && v[q].2 == v[k].2,
        m > 0 ==> !(v[m - 1].0 == v[k].0 && v[m - 1].1 == v[k].1 && v[m - 1].2 == v[k].2),
    ensures
        down_link(
            keys,
            v[k].3 as int,
            if m > 0 && v[m - 1].0 == v[k].0 && v[m - 1].1 == v[k].1 {
                Some(v[m - 1].3)
            } else {
                None
            },
        ),
{
    let i = v[k].3 as int;
    assert(v[k] == place_of(keys, i));
    if m > 0 {
        assert(place_le(v[m - 1], v[k]));
        assert(v[m - 1] == place_of(keys, v[m - 1].3 as int));
    }
    assert forall|t: int|
        0 <= t < keys.len() && same_series(keys[i], #[trigger] keys[t]) && keys[t].1 < keys[i].1 implies m
        > 0 && v[m - 1].0 == v[k].0 && v[m - 1].1 == v[k].1 && keys[t].1 <= v[m - 1].2 by {
        let w = place_of(keys, t);
        assert(v.contains(w));
        assert(place_lt(w, v[k]));
        lemma_before(v, k, w);
        let q = choose|q: int| 0 <= q < k && v[q] == w;
        assert(q < m);
        if q < m - 1 {
            assert(place_le(v[q], v[m - 1]));
        }
    }
}

proof fn lemma_adjacent_from_sorted(v: Seq<Place>, keys: Seq<(i64, u64, bool)>, k: int, a: int)
    requires
        sorted_places(v),
        places_of(v, keys),
        0 <= k < v.len(),
        0 <= a <= v.len(),
        forall|q: int| 0 <= q < a ==> place_lt(#[trigger] v[q], (v[k].0, !v[k].1, v[k].2, 0usize)),
        forall|q: int| a <= q < v.len() ==> !place_lt(#[trigger] v[q], (v[k].0, !v[k].1, v[k].2, 0usize)),
    ensures
        adjacent_link(
            keys,
            v[k].3 as int,
            if a < v.len() && v[a].0 == v[k].0 && v[a].1 == !v[k].1 && v[a].2 == v[k].2 {
                Some(v[a].3)
            } else {
                None
            },
        ),
{
    let i = v[k].3 as int;
    let target: Place = (v[k].0, !v[k].1, v[k].2, 0usize);
    assert(v[k] == place_of(keys, i));
    if a < v.len() {
        assert(v[a] == place_of(keys, v[a].3 as int));
    }
    let found = a < v.len() && v[a].0 == v[k].0 && v[a].1 == !v[k].1 && v[a].2 == v[k].2;
    assert forall|t: int|
        0 <= t < keys.len() && counterpart(keys[i], #[trigger] keys[t]) && (!found || t < v[a].3) implies false by {
        let w = place_of(keys, t);
        assert(v.contains(w));
        let q = choose|q: int| 0 <= q < v.len() && v[q] == w;
        assert(!place_lt(w, target));
        assert(q >= a);
        if q > a {
            assert(place_le(v[a], v[q]));
        }
    }
}

/// Each node's entry in `adj`, `up` and `down` is its link of that kind.
pub open spec fn links_ok(
    keys: Seq<(i64, u64, bool)>,
    adj: Seq<Option<LatticePointer>>,
    up: Seq<Option<LatticePointer>>,
    down: Seq<Option<LatticePointer>>,
) -> bool {
    forall|i: int|
        0 <= i < keys.len() ==> {
            &&& adjacent_link(keys, i, #[trigger] adj[i])
            &&& up_link(keys, i, up[i])
            &&& down_link(keys, i, down[i])
        }
}

/// The links of every node: counterpart, up and down.
pub fn link_all(nodes: &Vec<LedgerXOptionsContract>) -> (r: (
    Vec<Option<LatticePointer>>,
    Vec<Option<LatticePointer>>,
    Vec<Option<LatticePointer>>,
))
    ensures
        r.0@.len() == nodes@.len(),
        r.1@.len() == nodes@.len(),
        r.2@.len() == nodes@.len(),
        links_ok(keys_of(nodes@), r.0@, r.1@, r.2@),
{
    let ghost keys = keys_of(nodes@);
    let n = nodes.len();
    let mut v: Vec<Place> = Vec::new();
    let mut adj: Vec<Option<LatticePointer>> = Vec::new();
    let mut up: Vec<Option<LatticePointer>> = Vec::new();
    let mut down: Vec<Option<LatticePointer>> = Vec::new();
    let mut i: usize = 0;
    while i < n
        invariant
            n == nodes@.len(),
            keys == keys_of(nodes@),
            i <= n,
            v@.len() == i,
            adj@.len() == i,
            up@.len() == i,
            down@.len() == i,
            forall|q: int| 0 <= q < i ==> #[trigger] v@[q] == place_of(keys, q),
        decreases n - i,
    {
        v.push((nodes[i].expiry, nodes[i].is_call, nodes[i].strike, i));
        adj.push(None);
        up.push(None);
        down.push(None);
        i += 1;
    }
    let ghost before = v@;
    sort_places(&mut v);
    proof {
        vstd::seq_lib::to_multiset_len(v@);
        vstd::seq_lib::to_multiset_len(before);
        assert forall|q: int| 0 <= q < v@.len() implies (#[trigger] v@[q]).3 < keys.len() && v@[q] == place_of(
            keys,
            v@[q].3 as int,
        ) by {
            assert(v@.contains(v@[q]));
            vstd::seq_lib::to_multiset_contains(v@, v@[q]);
            vstd::seq_lib::to_multiset_contains(before, v@[q]);
            assert(before.contains(v@[q]));
            let j = choose|j: int| 0 <= j < before.len() && before[j] == v@[q];
            assert(before[j] == place_of(keys, j));
        }
        assert forall|t: int| 0 <= t < keys.len() implies v@.contains(#[trigger] place_of(keys, t)) by {
            assert(before[t] == place_of(keys, t));
            assert(before.contains(place_of(keys, t)));
            vstd::seq_lib::to_multiset_contains(v@, place_of(keys, t));
            vstd::seq_lib::to_multiset_contains(before, place_of(keys, t));
        }
    }
    let mut k: usize = 0;
    while k < n
        invariant
            n == nodes@.len(),
            n == v@.len(),
            keys == keys_of(nodes@),
            k <= n,
            adj@.len() == n,
            up@.len() == n,
            down@.len() == n,
            sorted_places(v@),
            places_of(v@, keys),
            forall|q: int|
                0 <= q < k ==> {
                    &&& adjacent_link(keys, (#[trigger] v@[q]).3 as int, adj@[v@[q].3 as int])
                    &&& up_link(keys, v@[q].3 as int, up@[v@[q].3 as int])
                    &&& down_link(keys, v@[q].3 as int, down@[v@[q].3 as int])
                },
        decreases n - k,
    {
        let (e, c, s, idx) = v[k];
        let a = lower_bound(&v, (e, !c, s, 0));
        let found_adj = if a < n && v[a].0 == e && v[a].1 == !c && v[a].2 == s {
            Some(v[a].3)
        } else {
            None
        };
        let mut m: usize = k + 1;
        while m < n && v[m].0 == e && v[m].1 == c && v[m].2 == s
            invariant
                k < m <= n,
                n == v@.len(),
                v@[k as int] == (e, c, s, idx),
                forall|q: int| k < q < m ==> (#[trigger] v@[q]).0 == e && v@[q].1 == c && v@[q].2 == s,
            decreases n - m,
        {
            m += 1;
        }
        let found_up = if m < n && v[m].0 == e && v[m].1 == c {
            Some(v[m].3)
        } else {
            None
        };
        let mut d: usize = k;
        while d > 0 && v[d - 1].0 == e && v[d - 1].1 == c && v[d - 1].2 == s
            invariant
                d <= k < n,
                n == v@.len(),
                v@[k as int] == (e, c, s, idx),
                forall|q: int| d <= q < k ==> (#[trigger] v@[q]).0 == e && v@[q].1 == c && v@[q].2 == s,
            decreases d,
        {
            d -= 1;
        }
        let found_down = if d > 0 && v[d - 1].0 == e && v[d - 1].1 == c {
            Some(v[d - 1].3)
        } else {
            None
        };
        proof {
            lemma_adjacent_from_sorted(v@, keys, k as int, a as int);
            lemma_up_from_sorted(v@, keys, k as int, m as int);
            lemma_down_from_sorted(v@, keys, k as int, d as int);
        }
        let ghost adj0 = adj@;
        adj.set(idx, found_adj);
        up.set(idx, found_up);
        down.set(idx, found_down);
        proof {
            assert forall|q: int|
                0 <= q < k + 1 implies {
                &&& adjacent_link(keys, (#[trigger] v@[q]).3 as int, adj@[v@[q].3 as int])
                &&& up_link(keys, v@[q].3 as int, up@[v@[q].3 as int])
                &&& down_link(keys, v@[q].3 as int, down@[v@[q].3 as int])
            } by {
                if v@[q].3 != idx {
                    assert(adj@[v@[q].3 as int] == adj0[v@[q].3 as int]);
                }
            }
        }
        k += 1;
    }
    proof {
        assert forall|t: int| 0 <= t < n implies {
            &&& adjacent_link(keys, t, #[trigger] adj@[t])
            &&& up_link(keys, t, up@[t])
            &&& down_link(keys, t, down@[t])
        } by {
            assert(v@.contains(place_of(keys, t)));
            let q = choose|q: int| 0 <= q < v@.len() && v@[q] == place_of(keys, t);
            assert(v@[q].3 as int == t);
        }
    }
    proof {
        assert(links_ok(keys, adj@, up@, down@));
    }
    (adj, up, down)
}

} // verus!
