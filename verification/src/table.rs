//! The table that the other modules read, sort and draw.

use vstd::prelude::*;

verus! {

/// A table of text. The first record, where there is one, is the header; the
/// records after it are the data rows. A record is a list of fields, and a
/// field is any text, the empty text included.
#[derive(Clone, Debug, PartialEq, Eq)]
pub struct CsvTable {
    pub records: Vec<Vec<String>>,
}

impl View for CsvTable {
    type V = Seq<Seq<Seq<char>>>;

    /// The records, each as the list of its fields.
    open spec fn view(&self) -> Self::V {
        self.records.deep_view()
    }
}

/// The number of columns that the header names; zero where there is no header.
pub open spec fn field_count(records: Seq<Seq<Seq<char>>>) -> nat {
    if records.len() > 0 {
        records[0].len()
    } else {
        0
    }
}

/// The data rows: the records after the header, in their order.
pub open spec fn data_rows(records: Seq<Seq<Seq<char>>>) -> Seq<Seq<Seq<char>>> {
    if records.len() > 0 {
        records.subrange(1, records.len() as int)
    } else {
        Seq::empty()
    }
}

/// Every record has as many fields as the header.
pub open spec fn is_rectangular(records: Seq<Seq<Seq<char>>>) -> bool {
    forall|r: int| 0 <= r < records.len() ==> (#[trigger] records[r]).len() == records[0].len()
}

impl CsvTable {
    /// The table that holds `records`, the first of them as its header.
    pub fn new(records: Vec<Vec<String>>) -> (table: CsvTable)
        ensures
            table@ == records.deep_view(),
            table.records == records,
    {
        CsvTable { records }
    }

    /// The number of columns that the header names.
    pub fn field_count(&self) -> (count: usize)
        ensures
            count == field_count(self@),
    {
        if self.records.len() > 0 {
            self.records[0].len()
        } else {
            0
        }
    }
}

} // verus!
