//! Orders of indices: a sequence that lists each of `0..n` once, sorted by a
//! strict total order on the indices, is the only such sequence.

use vstd::prelude::*;

verus! {

/// Whether `order` lists index `v` somewhere.
pub open spec fn lists_index(order: Seq<usize>, v: int) -> bool {
    exists|j: int| 0 <= j < order.len() && order[j] == v
}

/// `before` orders the indices below `n` strictly and totally: of two
/// different indices exactly one comes first, and no index before itself.
pub open spec fn strict_total_on(before: spec_fn(int, int) -> bool, n: nat) -> bool {
    &&& forall|a: int| 0 <= a < n ==> !#[trigger] before(a, a)
    &&& forall|a: int, b: int|
        0 <= a < n && 0 <= b < n && a != b ==> (#[trigger] before(a, b) <==> !#[trigger] before(b, a))
}

/// `order` holds `n` indices below `n`, each before the next by `before`.
pub open spec fn sorted_by(before: spec_fn(int, int) -> bool, n: nat, order: Seq<usize>) -> bool {
    &&& order.len() == n
    &&& forall|i: int| 0 <= i < order.len() ==> order[i] < n
    &&& forall|i: int, j: int|
        0 <= i < j < order.len() ==> #[trigger] before(order[i] as int, order[j] as int)
}

/// A sorted order names no index twice.
proof fn lemma_sorted_distinct(before: spec_fn(int, int) -> bool, n: nat, order: Seq<usize>)
    requires
        strict_total_on(before, n),
        sorted_by(before, n, order),
    ensures
        forall|i: int, j: int|
            0 <= i < order.len() && 0 <= j < order.len() && i != j ==> order[i] != order[j],
{
    assert forall|i: int, j: int|
        0 <= i < order.len() && 0 <= j < order.len() && i != j implies order[i] != order[j] by {
        if i < j {
            assert(before(order[i] as int, order[j] as int));
        } else {
            assert(before(order[j] as int, order[i] as int));
        }
    }
}

/// `n` distinct indices below `n` are every index below `n`.
pub proof fn lemma_distinct_indices_cover(order: Seq<usize>, n: nat)
    requires
        order.len() == n,
        forall|i: int| 0 <= i < order.len() ==> order[i] < n,
        forall|i: int, j: int|
            0 <= i < order.len() && 0 <= j < order.len() && i != j ==> order[i] != order[j],
    ensures
        forall|v: int| 0 <= v < n ==> #[trigger] lists_index(order, v),
{
    let as_int = order.map_values(|x: usize| x as int);
    assert(as_int.no_duplicates()) by {
        assert forall|i: int, j: int|
            0 <= i < as_int.len() && 0 <= j < as_int.len() && i != j implies as_int[i]
            != as_int[j] by {
            assert(order[i] != order[j]);
        }
    }
    as_int.unique_seq_to_set();
    vstd::set_lib::lemma_int_range(0, n as int);
    let range = vstd::set_lib::set_int_range(0, n as int);
    assert(as_int.to_set().subset_of(range)) by {
        assert forall|v: int| as_int.to_set().contains(v) implies range.contains(v) by {
            let j = choose|j: int| 0 <= j < as_int.len() && as_int[j] == v;
            assert(order[j] < n);
        }
    }
    vstd::set_lib::lemma_len_subset(as_int.to_set(), range);
    vstd::set_lib::lemma_subset_equality(as_int.to_set(), range);
    assert forall|v: int| 0 <= v < n implies #[trigger] lists_index(order, v) by {
        assert(range.contains(v));
        assert(as_int.to_set().contains(v));
        let j = choose|j: int| 0 <= j < as_int.len() && as_int[j] == v;
        assert(order[j] == v);
    }
}

proof fn lemma_same_position(
    before: spec_fn(int, int) -> bool,
    n: nat,
    a: Seq<usize>,
    b: Seq<usize>,
    k: int,
)
    requires
        strict_total_on(before, n),
        sorted_by(before, n, a),
        sorted_by(before, n, b),
        forall|i: int, j: int| 0 <= i < a.len() && 0 <= j < a.len() && i != j ==> a[i] != a[j],
        forall|i: int, j: int| 0 <= i < b.len() && 0 <= j < b.len() && i != j ==> b[i] != b[j],
        forall|v: int| 0 <= v < n ==> #[trigger] lists_index(a, v),
        forall|v: int| 0 <= v < n ==> #[trigger] lists_index(b, v),
        0 <= k < a.len(),
    ensures
        a[k] == b[k],
    decreases k,
{
    assert forall|i: int| 0 <= i < k implies a[i] == b[i] by {
        lemma_same_position(before, n, a, b, i);
    }
    if a[k] != b[k] {
        let x = a[k] as int;
        let y = b[k] as int;
        assert(lists_index(b, x));
        assert(lists_index(a, y));
        let jb = choose|j: int| 0 <= j < b.len() && b[j] == x;
        let ja = choose|j: int| 0 <= j < a.len() && a[j] == y;
        if jb < k {
            assert(a[jb] == b[jb]);
        }
        if ja < k {
            assert(a[ja] == b[ja]);
        }
        assert(before(x, y));
        assert(before(y, x));
    }
}

/// Two sequences that each list every index below `n` once, sorted by one
/// strict total order, are the same sequence.
pub proof fn lemma_sorted_order_unique(
    before: spec_fn(int, int) -> bool,
    n: nat,
    a: Seq<usize>,
    b: Seq<usize>,
)
    requires
        strict_total_on(before, n),
        sorted_by(before, n, a),
        sorted_by(before, n, b),
    ensures
        a == b,
{
    lemma_sorted_distinct(before, n, a);
    lemma_sorted_distinct(before, n, b);
    lemma_distinct_indices_cover(a, n);
    lemma_distinct_indices_cover(b, n);
    assert forall|k: int| 0 <= k < a.len() implies a[k] == b[k] by {
        lemma_same_position(before, n, a, b, k);
    }
    assert(a =~= b);
}

} // verus!
