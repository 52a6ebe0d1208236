//! What holds of every sorted table.
//!
//! The laws are stated over the predicates of the sort: `is_stable_order` for
//! the order that the data rows are put in, `is_sorted_by` for the table that
//! comes out.

use crate::order::{lemma_bytes_le_antisymmetric, lemma_bytes_le_reflexive};
use crate::sort::{
    accepts_key, goes_before, in_order, is_arranged, is_sorted_by, is_stable_order, key_of,
    SortDirection,
};
use vstd::prelude::*;

verus! {

/// The data rows of the table stand in the order of their keys already.
pub open spec fn rows_in_order(
    records: Seq<Seq<Seq<char>>>,
    k: int,
    direction: SortDirection,
) -> bool {
    forall|u: int, v: int|
        1 <= u < v < records.len() ==> in_order(
            #[trigger] key_of(records, k, u),
            #[trigger] key_of(records, k, v),
            direction,
        )
}

/// The last column of a header is the last one that a sort can go by: its
/// number, the number of columns less one, is accepted, and the number of
/// columns itself is refused.
pub proof fn law_last_column_is_the_last_key(field_count: nat)
    ensures
        field_count > 0 ==> accepts_key(field_count, field_count - 1),
        !accepts_key(field_count, field_count as int),
{
}

/// Two keys may stand either way round just when they are the same bytes.
pub proof fn law_tied_keys_are_equal(x: Seq<u8>, y: Seq<u8>, direction: SortDirection)
    ensures
        in_order(x, y, direction) && in_order(y, x, direction) <==> x == y,
{
    lemma_bytes_le_reflexive(x, 0);
    if in_order(x, y, direction) && in_order(y, x, direction) {
        lemma_bytes_le_antisymmetric(x, y, 0);
    }
}

/// A sorted order lists no record twice.
pub proof fn law_no_record_is_listed_twice(
    records: Seq<Seq<Seq<char>>>,
    k: int,
    direction: SortDirection,
    lo: int,
    hi: int,
    order: Seq<int>,
)
    requires
        is_stable_order(records, k, direction, lo, hi, order),
    ensures
        forall|a: int, b: int|
            0 <= a < order.len() && 0 <= b < order.len() && a != b ==> #[trigger] order[a]
                != #[trigger] order[b],
{
    assert forall|a: int, b: int|
        0 <= a < order.len() && 0 <= b < order.len() && a != b implies #[trigger] order[a]
        != #[trigger] order[b] by {
        if a < b {
            assert(goes_before(records, k, direction, order[a], order[b]));
        } else {
            assert(goes_before(records, k, direction, order[b], order[a]));
        }
    }
}

/// Two sorted orders of the same records agree in their first `n` places.
proof fn lemma_orders_agree(
    records: Seq<Seq<Seq<char>>>,
    k: int,
    direction: SortDirection,
    lo: int,
    hi: int,
    p: Seq<int>,
    q: Seq<int>,
    n: int,
)
    requires
        is_stable_order(records, k, direction, lo, hi, p),
        is_stable_order(records, k, direction, lo, hi, q),
        0 <= n <= p.len(),
    ensures
        forall|a: int| 0 <= a < n ==> p[a] == q[a],
    decreases n,
{
    if n > 0 {
        lemma_orders_agree(records, k, direction, lo, hi, p, q, n - 1);
        law_no_record_is_listed_twice(records, k, direction, lo, hi, p);
        law_no_record_is_listed_twice(records, k, direction, lo, hi, q);
        let i = n - 1;
        let x = p[i];
        let y = q[i];
        assert(q.contains(x));
        let m = choose|m: int| 0 <= m < q.len() && q[m] == x;
        assert(p.contains(y));
        let w = choose|w: int| 0 <= w < p.len() && p[w] == y;
        if m < i {
            assert(p[m] == q[m]);
        } else if m > i {
            if w < i {
                assert(p[w] == q[w]);
            } else if w > i {
                assert(goes_before(records, k, direction, p[i], p[w]));
                assert(goes_before(records, k, direction, q[i], q[m]));
            }
        }
    }
}

/// There is one sorted order only: two orders of the same records, by the same
/// column and in the same direction, are the same.
pub proof fn law_sorted_order_is_unique(
    records: Seq<Seq<Seq<char>>>,
    k: int,
    direction: SortDirection,
    lo: int,
    hi: int,
    p: Seq<int>,
    q: Seq<int>,
)
    requires
        is_stable_order(records, k, direction, lo, hi, p),
        is_stable_order(records, k, direction, lo, hi, q),
    ensures
        p == q,
{
    lemma_orders_agree(records, k, direction, lo, hi, p, q, p.len() as int);
    assert(p =~= q);
}

/// A table has one sorted form only: what `sort_records` returns is fixed by
/// the table, the column and the direction.
pub proof fn law_sorting_is_determined(
    input: Seq<Seq<Seq<char>>>,
    k: int,
    direction: SortDirection,
    first: Seq<Seq<Seq<char>>>,
    second: Seq<Seq<Seq<char>>>,
)
    requires
        is_sorted_by(input, k, direction, first),
        is_sorted_by(input, k, direction, second),
    ensures
        first == second,
{
    let hi = input.len() as int;
    let p = choose|p: Seq<int>|
        is_stable_order(input, k, direction, 1, hi, p) && #[trigger] is_arranged(input, p, first);
    let q = choose|q: Seq<int>|
        is_stable_order(input, k, direction, 1, hi, q) && #[trigger] is_arranged(input, q, second);
    law_sorted_order_is_unique(input, k, direction, 1, hi, p, q);
    assert forall|r: int| 0 <= r < first.len() implies first[r] == second[r] by {
        if r > 0 {
            let a = r - 1;
            assert(first[a + 1] == input[p[a]]);
            assert(second[a + 1] == input[q[a]]);
        }
    }
    assert(first =~= second);
}

/// Sorting never moves or changes the header.
pub proof fn law_header_stays(
    input: Seq<Seq<Seq<char>>>,
    k: int,
    direction: SortDirection,
    output: Seq<Seq<Seq<char>>>,
)
    requires
        is_sorted_by(input, k, direction, output),
    ensures
        output[0] == input[0],
{
}

/// Sorting is stable in either direction: of two records with the same key,
/// the one that stood first stands first in the sorted order too. Here `a` and
/// `b` are two places of the sorted order, and `order[a]`, `order[b]` the
/// places where the records stood before.
pub proof fn law_equal_keys_keep_their_order(
    records: Seq<Seq<Seq<char>>>,
    k: int,
    direction: SortDirection,
    lo: int,
    hi: int,
    order: Seq<int>,
    a: int,
    b: int,
)
    requires
        is_stable_order(records, k, direction, lo, hi, order),
        0 <= a < order.len(),
        0 <= b < order.len(),
        records[order[a]][k] == records[order[b]][k],
        order[a] < order[b],
    ensures
        a < b,
{
    if b < a {
        assert(goes_before(records, k, direction, order[b], order[a]));
    }
}

/// In a sorted table the keys of the data rows are in order from top to
/// bottom.
pub proof fn law_sorted_rows_are_in_order(
    input: Seq<Seq<Seq<char>>>,
    k: int,
    direction: SortDirection,
    output: Seq<Seq<Seq<char>>>,
)
    requires
        is_sorted_by(input, k, direction, output),
    ensures
        rows_in_order(output, k, direction),
{
    let hi = input.len() as int;
    let p = choose|p: Seq<int>|
        is_stable_order(input, k, direction, 1, hi, p) && #[trigger] is_arranged(input, p, output);
    assert forall|u: int, v: int| 1 <= u < v < output.len() implies in_order(
        #[trigger] key_of(output, k, u),
        #[trigger] key_of(output, k, v),
        direction,
    ) by {
        assert(output[(u - 1) + 1] == input[p[u - 1]]);
        assert(output[(v - 1) + 1] == input[p[v - 1]]);
        assert(goes_before(input, k, direction, p[u - 1], p[v - 1]));
    }
}

/// Sorting a table whose data rows are in order already changes nothing.
pub proof fn law_sorted_table_stays(
    input: Seq<Seq<Seq<char>>>,
    k: int,
    direction: SortDirection,
    output: Seq<Seq<Seq<char>>>,
)
    requires
        rows_in_order(input, k, direction),
        is_sorted_by(input, k, direction, output),
    ensures
        output == input,
{
    let hi = input.len() as int;
    let p = choose|p: Seq<int>|
        is_stable_order(input, k, direction, 1, hi, p) && #[trigger] is_arranged(input, p, output);
    let same = Seq::new((hi - 1) as nat, |a: int| a + 1);
    assert forall|r: int| 1 <= r < hi implies #[trigger] same.contains(r) by {
        assert(same[r - 1] == r);
    }
    assert forall|a: int, b: int| 0 <= a < b < same.len() implies goes_before(
        input,
        k,
        direction,
        #[trigger] same[a],
        #[trigger] same[b],
    ) by {
        assert(in_order(key_of(input, k, a + 1), key_of(input, k, b + 1), direction));
    }
    law_sorted_order_is_unique(input, k, direction, 1, hi, p, same);
    assert forall|r: int| 0 <= r < output.len() implies output[r] == input[r] by {
        if r > 0 {
            assert(output[(r - 1) + 1] == input[p[r - 1]]);
        }
    }
    assert(output =~= input);
}

/// Sorting twice is sorting once: a sorted table, sorted again by the same
/// column in the same direction, comes out as it went in.
pub proof fn law_sorting_twice_changes_nothing(
    input: Seq<Seq<Seq<char>>>,
    k: int,
    direction: SortDirection,
    once: Seq<Seq<Seq<char>>>,
    twice: Seq<Seq<Seq<char>>>,
)
    requires
        is_sorted_by(input, k, direction, once),
        is_sorted_by(once, k, direction, twice),
    ensures
        twice == once,
{
    law_sorted_rows_are_in_order(input, k, direction, once);
    law_sorted_table_stays(once, k, direction, twice);
}

} // verus!
