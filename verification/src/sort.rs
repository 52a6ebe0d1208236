//! Sorting the data rows of a table by one column.
//!
//! The rows are put in the order of their keys, the fields in the chosen
//! column, read as byte strings. Rows with the same key keep the order in which
//! they stood, in either direction. The header stays the first record.

use crate::order::{bytes_le, field_at_most, lemma_bytes_le_total, lemma_bytes_le_transitive};
use crate::table::{field_count, CsvTable};
use vstd::prelude::*;
use vstd::utf8::encode_utf8;

verus! {

/// The direction of a sort.
#[derive(Clone, Copy, Debug, PartialEq, Eq, Structural)]
pub enum SortDirection {
    /// The smallest key first.
    Ascending,
    /// The largest key first.
    Descending,
}

/// Why a table was not sorted.
#[derive(Clone, Copy, Debug, PartialEq, Eq, Structural)]
pub enum SortError {
    /// The header has no column of that number.
    InvalidSortKey,
    /// The data row at this place among the records, the first such one, ends
    /// before the column of the key.
    RaggedRow { row: usize },
}

/// The header of `field_count` columns has a column of the number `index`.
/// Columns are counted from zero.
pub open spec fn accepts_key(field_count: nat, index: int) -> bool {
    0 <= index < field_count
}

/// The key of the record `r`: the bytes of its field in column `k`.
pub open spec fn key_of(records: Seq<Seq<Seq<char>>>, k: int, r: int) -> Seq<u8> {
    encode_utf8(records[r][k])
}

/// The key `x` may stand before the key `y` in a sort in this direction.
pub open spec fn in_order(x: Seq<u8>, y: Seq<u8>, direction: SortDirection) -> bool {
    match direction {
        SortDirection::Ascending => bytes_le(x, y),
        SortDirection::Descending => bytes_le(y, x),
    }
}

/// The record `u` must stand before the record `v`: their keys are in order,
/// and where the keys may stand either way round, `u` is the earlier record.
pub open spec fn goes_before(
    records: Seq<Seq<Seq<char>>>,
    k: int,
    direction: SortDirection,
    u: int,
    v: int,
) -> bool {
    &&& in_order(key_of(records, k, u), key_of(records, k, v), direction)
    &&& in_order(key_of(records, k, v), key_of(records, k, u), direction) ==> u < v
}

/// `order` is the sorted order of the records from `lo` up to `hi`: it lists
/// each of them, and of two that it lists the first must stand before the
/// second.
pub open spec fn is_stable_order(
    records: Seq<Seq<Seq<char>>>,
    k: int,
    direction: SortDirection,
    lo: int,
    hi: int,
    order: Seq<int>,
) -> bool {
    &&& order.len() == hi - lo
    &&& forall|a: int| 0 <= a < order.len() ==> lo <= #[trigger] order[a] < hi
    &&& forall|r: int| lo <= r < hi ==> #[trigger] order.contains(r)
    &&& forall|a: int, b: int|
        0 <= a < b < order.len() ==> goes_before(
            records,
            k,
            direction,
            #[trigger] order[a],
            #[trigger] order[b],
        )
}

/// The places that `order` holds, as numbers without a bound.
pub open spec fn places(order: Seq<usize>) -> Seq<int> {
    Seq::new(order.len(), |a: int| order[a] as int)
}

/// `output` holds the data rows of `input` in the places that `order` gives
/// them, below the header.
pub open spec fn is_arranged(
    input: Seq<Seq<Seq<char>>>,
    order: Seq<int>,
    output: Seq<Seq<Seq<char>>>,
) -> bool {
    forall|a: int| 0 <= a < order.len() ==> #[trigger] output[a + 1] == input[order[a]]
}

/// `output` is `input` sorted by column `k`: the same header, and below it the
/// data rows of `input` in their sorted order.
pub open spec fn is_sorted_by(
    input: Seq<Seq<Seq<char>>>,
    k: int,
    direction: SortDirection,
    output: Seq<Seq<Seq<char>>>,
) -> bool {
    &&& input.len() >= 1
    &&& output.len() == input.len()
    &&& output[0] == input[0]
    &&& exists|order: Seq<int>|
        is_stable_order(input, k, direction, 1, input.len() as int, order)
            && #[trigger] is_arranged(input, order, output)
}

/// `is_stable_order`, said of the places as a vector holds them.
spec fn is_listing(
    records: Seq<Seq<Seq<char>>>,
    k: int,
    direction: SortDirection,
    lo: int,
    hi: int,
    order: Seq<usize>,
) -> bool {
    &&& order.len() == hi - lo
    &&& forall|a: int| 0 <= a < order.len() ==> lo <= #[trigger] order[a] < hi
    &&& forall|r: usize| lo <= r < hi ==> #[trigger] order.contains(r)
    &&& forall|a: int, b: int|
        0 <= a < b < order.len() ==> goes_before(
            records,
            k,
            direction,
            #[trigger] order[a] as int,
            #[trigger] order[b] as int,
        )
}

/// A listing, read as numbers without a bound, is a stable order.
proof fn lemma_listing_is_stable_order(
    records: Seq<Seq<Seq<char>>>,
    k: int,
    direction: SortDirection,
    lo: int,
    hi: int,
    order: Seq<usize>,
)
    requires
        0 <= lo,
        hi <= usize::MAX,
        is_listing(records, k, direction, lo, hi, order),
    ensures
        is_stable_order(records, k, direction, lo, hi, places(order)),
{
    let ints = places(order);
    assert forall|r: int| lo <= r < hi implies #[trigger] ints.contains(r) by {
        assert(order.contains(r as usize));
        let a = choose|a: int| 0 <= a < order.len() && order[a] == r as usize;
        assert(ints[a] == r);
    }
    assert forall|a: int, b: int| 0 <= a < b < ints.len() implies goes_before(
        records,
        k,
        direction,
        #[trigger] ints[a],
        #[trigger] ints[b],
    ) by {
        assert(goes_before(records, k, direction, order[a] as int, order[b] as int));
    }
}

/// Of two keys one may stand before the other.
proof fn lemma_in_order_total(x: Seq<u8>, y: Seq<u8>, direction: SortDirection)
    ensures
        in_order(x, y, direction) || in_order(y, x, direction),
{
    lemma_bytes_le_total(x, y, 0);
}

/// `goes_before` passes along.
proof fn lemma_goes_before_transitive(
    records: Seq<Seq<Seq<char>>>,
    k: int,
    direction: SortDirection,
    u: int,
    v: int,
    w: int,
)
    requires
        goes_before(records, k, direction, u, v),
        goes_before(records, k, direction, v, w),
    ensures
        goes_before(records, k, direction, u, w),
{
    let ku = key_of(records, k, u);
    let kv = key_of(records, k, v);
    let kw = key_of(records, k, w);
    match direction {
        SortDirection::Ascending => {
            lemma_bytes_le_transitive(ku, kv, kw, 0);
            if bytes_le(kw, ku) {
                lemma_bytes_le_transitive(kw, ku, kv, 0);
                lemma_bytes_le_transitive(kv, kw, ku, 0);
            }
        },
        SortDirection::Descending => {
            lemma_bytes_le_transitive(kw, kv, ku, 0);
            if bytes_le(ku, kw) {
                lemma_bytes_le_transitive(kv, ku, kw, 0);
                lemma_bytes_le_transitive(ku, kw, kv, 0);
            }
        },
    }
}

/// Every record from `lo` up to `hi` has a field in column `k`.
pub open spec fn has_key_between(records: Seq<Seq<Seq<char>>>, k: int, lo: int, hi: int) -> bool {
    forall|r: int| lo <= r < hi ==> k < (#[trigger] records[r]).len()
}

/// Whether the key of the record `u` may stand before that of the record `v`.
fn keys_in_order(
    table: &CsvTable,
    key: usize,
    direction: SortDirection,
    u: usize,
    v: usize,
) -> (yes: bool)
    requires
        u < table@.len(),
        v < table@.len(),
        key < table@[u as int].len(),
        key < table@[v as int].len(),
    ensures
        yes == in_order(
            key_of(table@, key as int, u as int),
            key_of(table@, key as int, v as int),
            direction,
        ),
{
    let x = table.records[u][key].as_str();
    let y = table.records[v][key].as_str();
    match direction {
        SortDirection::Ascending => field_at_most(x, y),
        SortDirection::Descending => field_at_most(y, x),
    }
}

/// Merges the sorted orders of two neighbouring ranges of records into the
/// sorted order of both. Where the next keys may stand either way round, the
/// record of the lower range goes first.
fn merge_orders(
    table: &CsvTable,
    key: usize,
    direction: SortDirection,
    lo: usize,
    mid: usize,
    hi: usize,
    left: &Vec<usize>,
    right: &Vec<usize>,
) -> (merged: Vec<usize>)
    requires
        lo <= mid <= hi <= table@.len(),
        has_key_between(table@, key as int, lo as int, hi as int),
        is_listing(table@, key as int, direction, lo as int, mid as int, left@),
        is_listing(table@, key as int, direction, mid as int, hi as int, right@),
    ensures
        is_listing(table@, key as int, direction, lo as int, hi as int, merged@),
{
    let ghost records = table@;
    let ghost k = key as int;
    let mut merged: Vec<usize> = Vec::new();
    let mut i: usize = 0;
    let mut j: usize = 0;
    while i < left.len() || j < right.len()
        invariant
            records == table@,
            k == key as int,
            lo <= mid <= hi <= records.len(),
            has_key_between(records, k, lo as int, hi as int),
            is_listing(records, k, direction, lo as int, mid as int, left@),
            is_listing(records, k, direction, mid as int, hi as int, right@),
            i <= left.len(),
            j <= right.len(),
            merged@.len() == i + j,
            forall|a: int| 0 <= a < merged@.len() ==> lo <= #[trigger] merged@[a] < hi,
            forall|x: int| 0 <= x < i ==> merged@.contains(#[trigger] left@[x]),
            forall|y: int| 0 <= y < j ==> merged@.contains(#[trigger] right@[y]),
            forall|a: int, b: int|
                0 <= a < b < merged@.len() ==> goes_before(
                    records,
                    k,
                    direction,
                    #[trigger] merged@[a] as int,
                    #[trigger] merged@[b] as int,
                ),
            forall|a: int, x: int|
                0 <= a < merged@.len() && i <= x < left@.len() ==> goes_before(
                    records,
                    k,
                    direction,
                    #[trigger] merged@[a] as int,
                    #[trigger] left@[x] as int,
                ),
            forall|a: int, y: int|
                0 <= a < merged@.len() && j <= y < right@.len() ==> goes_before(
                    records,
                    k,
                    direction,
                    #[trigger] merged@[a] as int,
                    #[trigger] right@[y] as int,
                ),
        decreases left.len() - i + (right.len() - j),
    {
        let ghost before = merged@;
        let take_left = if i == left.len() {
            false
        } else if j == right.len() {
            true
        } else {
            keys_in_order(table, key, direction, left[i], right[j])
        };
        if take_left {
            let u = left[i];
            proof {
                if j < right.len() {
                    let v = right@[j as int];
                    assert(goes_before(records, k, direction, u as int, v as int));
                    assert forall|y: int| j < y < right@.len() implies goes_before(
                        records,
                        k,
                        direction,
                        u as int,
                        #[trigger] right@[y] as int,
                    ) by {
                        lemma_goes_before_transitive(
                            records,
                            k,
                            direction,
                            u as int,
                            v as int,
                            right@[y] as int,
                        );
                    }
                }
            }
            merged.push(u);
            i += 1;
        } else {
            let v = right[j];
            proof {
                if i < left.len() {
                    let u = left@[i as int];
                    lemma_in_order_total(
                        key_of(records, k, u as int),
                        key_of(records, k, v as int),
                        direction,
                    );
                    assert(goes_before(records, k, direction, v as int, u as int));
                    assert forall|x: int| i < x < left@.len() implies goes_before(
                        records,
                        k,
                        direction,
                        v as int,
                        #[trigger] left@[x] as int,
                    ) by {
                        lemma_goes_before_transitive(
                            records,
                            k,
                            direction,
                            v as int,
                            u as int,
                            left@[x] as int,
                        );
                    }
                }
            }
            merged.push(v);
            j += 1;
        }
        proof {
            assert forall|x: int| 0 <= x < i implies merged@.contains(#[trigger] left@[x]) by {
                if x < i - 1 || !take_left {
                    let w = choose|w: int| 0 <= w < before.len() && before[w] == left@[x];
                    assert(merged@[w] == left@[x]);
                } else {
                    assert(merged@[before.len() as int] == left@[x]);
                }
            }
            assert forall|y: int| 0 <= y < j implies merged@.contains(#[trigger] right@[y]) by {
                if y < j - 1 || take_left {
                    let w = choose|w: int| 0 <= w < before.len() && before[w] == right@[y];
                    assert(merged@[w] == right@[y]);
                } else {
                    assert(merged@[before.len() as int] == right@[y]);
                }
            }
        }
    }
    proof {
        assert forall|r: usize| lo <= r < hi implies #[trigger] merged@.contains(r) by {
            if r < mid {
                assert(left@.contains(r));
                let x = choose|x: int| 0 <= x < left@.len() && left@[x] == r;
                assert(merged@.contains(left@[x]));
            } else {
                assert(right@.contains(r));
                let y = choose|y: int| 0 <= y < right@.len() && right@[y] == r;
                assert(merged@.contains(right@[y]));
            }
        }
    }
    merged
}

/// The sorted order of the records from `lo` up to `hi`, by merging the sorted
/// orders of the two halves of the range.
fn sort_range(
    table: &CsvTable,
    key: usize,
    direction: SortDirection,
    lo: usize,
    hi: usize,
) -> (order: Vec<usize>)
    requires
        lo <= hi <= table@.len(),
        has_key_between(table@, key as int, lo as int, hi as int),
    ensures
        is_listing(table@, key as int, direction, lo as int, hi as int, order@),
    decreases hi - lo,
{
    let mut order: Vec<usize> = Vec::new();
    if hi - lo == 0 {
        return order;
    }
    if hi - lo == 1 {
        order.push(lo);
        assert(order@[0] == lo);
        return order;
    }
    let mid = lo + (hi - lo) / 2;
    let left = sort_range(table, key, direction, lo, mid);
    let right = sort_range(table, key, direction, mid, hi);
    merge_orders(table, key, direction, lo, mid, hi, &left, &right)
}

/// A copy of `record`, field by field.
fn copy_record(record: &Vec<String>) -> (copy: Vec<String>)
    ensures
        copy.deep_view() == record.deep_view(),
{
    let mut copy: Vec<String> = Vec::new();
    let mut f: usize = 0;
    while f < record.len()
        invariant
            f <= record.len(),
            copy@.len() == f,
            forall|c: int| 0 <= c < f ==> (#[trigger] copy@[c])@ == record@[c]@,
        decreases record.len() - f,
    {
        copy.push(record[f].clone());
        f += 1;
    }
    assert(copy.deep_view() =~= record.deep_view());
    copy
}

/// The number of a column of a table, checked against the header.
#[derive(Clone, Copy, Debug, PartialEq, Eq, Structural)]
pub struct SortKey {
    index: usize,
}

impl SortKey {
    /// The number of the column, counted from zero.
    pub closed spec fn spec_index(&self) -> usize {
        self.index
    }

    /// Checks `index` against a header of `field_count` columns: the columns
    /// are numbered from zero, so the last one has the number
    /// `field_count - 1`.
    pub fn new(index: usize, field_count: usize) -> (key: Result<SortKey, SortError>)
        ensures
            key matches Ok(k) ==> k.spec_index() == index,
            key is Ok <==> accepts_key(field_count as nat, index as int),
            key is Err ==> key == Err::<SortKey, SortError>(SortError::InvalidSortKey),
    {
        if index < field_count {
            Ok(SortKey { index })
        } else {
            Err(SortError::InvalidSortKey)
        }
    }

    /// The number of the column, counted from zero.
    #[verifier::when_used_as_spec(spec_index)]
    pub fn index(&self) -> (index: usize)
        ensures
            index == self.spec_index(),
    {
        self.index
    }
}

/// The record `r` is a data row that ends before column `k`, and the first
/// such one.
pub open spec fn is_first_short_row(records: Seq<Seq<Seq<char>>>, k: int, r: int) -> bool {
    &&& 1 <= r < records.len()
    &&& records[r].len() <= k
    &&& has_key_between(records, k, 1, r)
}

/// The first data row of `table` that ends before column `key`, if there is
/// one.
fn first_short_row(table: &CsvTable, key: usize) -> (found: Option<usize>)
    requires
        table@.len() >= 1,
    ensures
        match found {
            Some(row) => is_first_short_row(table@, key as int, row as int),
            None => has_key_between(table@, key as int, 1, table@.len() as int),
        },
{
    let mut r: usize = 1;
    while r < table.records.len()
        invariant
            1 <= r <= table@.len(),
            has_key_between(table@, key as int, 1, r as int),
        decreases table@.len() - r,
    {
        if table.records[r].len() <= key {
            return Some(r);
        }
        r += 1;
    }
    None
}

/// Sorts the data rows of `table` by the column `key_index`, counted from
/// zero, and leaves the header in its place. The keys are read as byte
/// strings. Rows with the same key keep their order, whatever the direction.
/// The result is a new table; `table` is not changed.
///
/// A key that the header has no column for is refused, and so is every key
/// where there is no header. A data row that ends before the column of the
/// key is refused too.
pub fn sort_records(
    table: &CsvTable,
    key_index: usize,
    direction: SortDirection,
) -> (result: Result<CsvTable, SortError>)
    ensures
        match result {
            Ok(sorted) => {
                &&& accepts_key(field_count(table@), key_index as int)
                &&& has_key_between(table@, key_index as int, 1, table@.len() as int)
                &&& sorted@[0] == table@[0]
                &&& is_sorted_by(table@, key_index as int, direction, sorted@)
            },
            Err(SortError::InvalidSortKey) => !accepts_key(field_count(table@), key_index as int),
            Err(SortError::RaggedRow { row }) => {
                &&& accepts_key(field_count(table@), key_index as int)
                &&& is_first_short_row(table@, key_index as int, row as int)
            },
        },
{
    let key = match SortKey::new(key_index, table.field_count()) {
        Ok(key) => key.index(),
        Err(error) => {
            return Err(error);
        },
    };
    match first_short_row(table, key) {
        Some(row) => {
            return Err(SortError::RaggedRow { row });
        },
        None => {},
    }
    let order = sort_range(table, key, direction, 1, table.records.len());
    proof {
        lemma_listing_is_stable_order(
            table@,
            key as int,
            direction,
            1,
            table@.len() as int,
            order@,
        );
    }
    let mut records: Vec<Vec<String>> = Vec::new();
    records.push(copy_record(&table.records[0]));
    let mut a: usize = 0;
    while a < order.len()
        invariant
            a <= order.len(),
            table@.len() >= 1,
            order@.len() == table@.len() - 1,
            forall|b: int| 0 <= b < order@.len() ==> 1 <= #[trigger] order@[b] < table@.len(),
            records@.len() == a + 1,
            records@[0].deep_view() == table@[0],
            forall|b: int|
                0 <= b < a ==> (#[trigger] records@[b + 1]).deep_view() == table@[order@[b] as int],
        decreases order.len() - a,
    {
        records.push(copy_record(&table.records[order[a]]));
        a += 1;
    }
    let sorted = CsvTable::new(records);
    proof {
        assert(is_arranged(table@, places(order@), sorted@));
    }
    Ok(sorted)
}

} // verus!
