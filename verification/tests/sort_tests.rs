use csv_sorter::order::{bytes_at_most, field_at_most};
use csv_sorter::parse::parse_csv;
use csv_sorter::sort::{sort_records, SortDirection, SortError, SortKey};
use csv_sorter::table::CsvTable;

fn table_of(rows: &[&[&str]]) -> CsvTable {
    CsvTable::new(
        rows.iter().map(|row| row.iter().map(|field| field.to_string()).collect()).collect(),
    )
}

fn people() -> CsvTable {
    parse_csv(b"name,age\nAlice,30\nBob,25\nCarol,25").unwrap()
}

#[test]
fn ascending_by_age_keeps_bob_before_carol() {
    let sorted = sort_records(&people(), 1, SortDirection::Ascending).unwrap();
    assert_eq!(
        sorted,
        table_of(&[&["name", "age"], &["Bob", "25"], &["Carol", "25"], &["Alice", "30"]])
    );
}

#[test]
fn descending_by_age_keeps_bob_before_carol() {
    let sorted = sort_records(&people(), 1, SortDirection::Descending).unwrap();
    assert_eq!(
        sorted,
        table_of(&[&["name", "age"], &["Alice", "30"], &["Bob", "25"], &["Carol", "25"]])
    );
}

#[test]
fn header_stays_first_in_both_directions() {
    let table = table_of(&[&["zz", "aa"], &["b", "2"], &["a", "1"], &["c", "3"]]);
    for direction in [SortDirection::Ascending, SortDirection::Descending] {
        for key in 0..2 {
            let sorted = sort_records(&table, key, direction).unwrap();
            assert_eq!(sorted.records[0], table.records[0]);
            assert_eq!(sorted.records.len(), table.records.len());
        }
    }
}

#[test]
fn input_table_is_left_as_it_was() {
    let table = table_of(&[&["k"], &["b"], &["a"]]);
    let before = table.clone();
    let sorted = sort_records(&table, 0, SortDirection::Ascending).unwrap();
    assert_eq!(table, before);
    assert_eq!(sorted, table_of(&[&["k"], &["a"], &["b"]]));
}

#[test]
fn rows_with_the_same_key_keep_their_order_ascending() {
    let table = table_of(&[
        &["id", "group"],
        &["1", "b"],
        &["2", "a"],
        &["3", "b"],
        &["4", "a"],
        &["5", "b"],
        &["6", "a"],
    ]);
    let sorted = sort_records(&table, 1, SortDirection::Ascending).unwrap();
    let ids: Vec<&str> = sorted.records[1..].iter().map(|row| row[0].as_str()).collect();
    assert_eq!(ids, vec!["2", "4", "6", "1", "3", "5"]);
}

#[test]
fn rows_with_the_same_key_keep_their_order_descending() {
    let table = table_of(&[
        &["id", "group"],
        &["1", "b"],
        &["2", "a"],
        &["3", "b"],
        &["4", "a"],
        &["5", "b"],
        &["6", "a"],
    ]);
    let sorted = sort_records(&table, 1, SortDirection::Descending).unwrap();
    let ids: Vec<&str> = sorted.records[1..].iter().map(|row| row[0].as_str()).collect();
    assert_eq!(ids, vec!["1", "3", "5", "2", "4", "6"]);
}

#[test]
fn descending_is_not_the_ascending_result_reversed() {
    let ascending = sort_records(&people(), 1, SortDirection::Ascending).unwrap();
    let descending = sort_records(&people(), 1, SortDirection::Descending).unwrap();
    let mut reversed: Vec<Vec<String>> = ascending.records[1..].to_vec();
    reversed.reverse();
    assert_ne!(descending.records[1..].to_vec(), reversed);
}

#[test]
fn sorting_a_sorted_table_again_changes_nothing() {
    let table = table_of(&[
        &["word", "n"],
        &["pear", "3"],
        &["fig", "1"],
        &["apple", "3"],
        &["kiwi", "2"],
        &["plum", "1"],
    ]);
    for direction in [SortDirection::Ascending, SortDirection::Descending] {
        let once = sort_records(&table, 1, direction).unwrap();
        let twice = sort_records(&once, 1, direction).unwrap();
        assert_eq!(once, twice);
    }
}

#[test]
fn keys_are_read_as_text_not_as_numbers() {
    let table = table_of(&[&["n"], &["10"], &["9"], &["100"], &["2"]]);
    let sorted = sort_records(&table, 0, SortDirection::Ascending).unwrap();
    assert_eq!(sorted, table_of(&[&["n"], &["10"], &["100"], &["2"], &["9"]]));
}

#[test]
fn upper_case_comes_before_lower_case() {
    let table = table_of(&[&["w"], &["b"], &["B"], &["a"], &["A"], &[""]]);
    let sorted = sort_records(&table, 0, SortDirection::Ascending).unwrap();
    assert_eq!(sorted, table_of(&[&["w"], &[""], &["A"], &["B"], &["a"], &["b"]]));
}

#[test]
fn text_outside_ascii_is_put_in_order_by_its_bytes() {
    let table = table_of(&[&["w"], &["\u{e9}"], &["z"], &["e"], &["\u{4e2d}"], &["\u{1f600}"]]);
    let sorted = sort_records(&table, 0, SortDirection::Ascending).unwrap();
    assert_eq!(
        sorted,
        table_of(&[&["w"], &["e"], &["z"], &["\u{e9}"], &["\u{4e2d}"], &["\u{1f600}"]])
    );
}

#[test]
fn result_is_what_the_stable_sort_of_std_gives() {
    let mut rows: Vec<Vec<String>> = Vec::new();
    let mut seed: u32 = 12345;
    for n in 0..200 {
        seed = seed.wrapping_mul(1103515245).wrapping_add(12345);
        rows.push(vec![format!("row{}", n), format!("k{}", (seed >> 16) % 7)]);
    }
    let mut records = vec![vec!["id".to_string(), "key".to_string()]];
    records.extend(rows.iter().cloned());
    let table = CsvTable::new(records);

    let mut ascending = rows.clone();
    ascending.sort_by(|a, b| a[1].cmp(&b[1]));
    let sorted = sort_records(&table, 1, SortDirection::Ascending).unwrap();
    assert_eq!(sorted.records[1..].to_vec(), ascending);

    let mut descending = rows.clone();
    descending.sort_by(|a, b| b[1].cmp(&a[1]));
    let sorted = sort_records(&table, 1, SortDirection::Descending).unwrap();
    assert_eq!(sorted.records[1..].to_vec(), descending);
}

#[test]
fn header_alone_is_sorted_to_itself() {
    let table = table_of(&[&["a", "b", "c"]]);
    let sorted = sort_records(&table, 2, SortDirection::Ascending).unwrap();
    assert_eq!(sorted, table);
}

#[test]
fn single_data_row_is_sorted_to_itself() {
    let table = table_of(&[&["a"], &["x"]]);
    assert_eq!(sort_records(&table, 0, SortDirection::Descending).unwrap(), table);
}

#[test]
fn last_column_is_accepted_and_the_next_number_refused() {
    let table = people();
    assert!(sort_records(&table, 1, SortDirection::Ascending).is_ok());
    assert_eq!(
        sort_records(&table, 2, SortDirection::Ascending),
        Err(SortError::InvalidSortKey)
    );
    assert_eq!(
        sort_records(&table, usize::MAX, SortDirection::Descending),
        Err(SortError::InvalidSortKey)
    );
}

#[test]
fn table_without_header_has_no_key() {
    let table = CsvTable::new(Vec::new());
    assert_eq!(
        sort_records(&table, 0, SortDirection::Ascending),
        Err(SortError::InvalidSortKey)
    );
}

#[test]
fn header_without_fields_has_no_key() {
    let table = CsvTable::new(vec![Vec::new()]);
    assert_eq!(
        sort_records(&table, 0, SortDirection::Ascending),
        Err(SortError::InvalidSortKey)
    );
}

#[test]
fn short_data_row_is_reported_with_its_place() {
    let table = table_of(&[&["a", "b", "c"], &["1", "2", "3"], &["4", "5"], &["6"]]);
    assert_eq!(
        sort_records(&table, 2, SortDirection::Ascending),
        Err(SortError::RaggedRow { row: 2 })
    );
    assert_eq!(
        sort_records(&table, 1, SortDirection::Ascending),
        Err(SortError::RaggedRow { row: 3 })
    );
}

#[test]
fn ragged_table_is_sorted_by_a_column_that_every_row_has() {
    let table = table_of(&[&["a", "b", "c"], &["2", "x", "y"], &["1", "z"], &["0"]]);
    let sorted = sort_records(&table, 0, SortDirection::Ascending).unwrap();
    assert_eq!(sorted, table_of(&[&["a", "b", "c"], &["0"], &["1", "z"], &["2", "x", "y"]]));
}

#[test]
fn key_outside_the_header_is_refused_before_rows_are_looked_at() {
    let table = table_of(&[&["a"], &[]]);
    assert_eq!(
        sort_records(&table, 1, SortDirection::Ascending),
        Err(SortError::InvalidSortKey)
    );
}

#[test]
fn sort_key_is_checked_against_the_field_count() {
    assert_eq!(SortKey::new(0, 3).map(|key| key.index()), Ok(0));
    assert_eq!(SortKey::new(2, 3).map(|key| key.index()), Ok(2));
    assert_eq!(SortKey::new(3, 3), Err(SortError::InvalidSortKey));
    assert_eq!(SortKey::new(0, 0), Err(SortError::InvalidSortKey));
}

#[test]
fn bytes_are_put_in_dictionary_order() {
    assert!(bytes_at_most(b"", b""));
    assert!(bytes_at_most(b"", b"a"));
    assert!(!bytes_at_most(b"a", b""));
    assert!(bytes_at_most(b"abc", b"abc"));
    assert!(bytes_at_most(b"ab", b"abc"));
    assert!(!bytes_at_most(b"abc", b"ab"));
    assert!(bytes_at_most(b"abc", b"abd"));
    assert!(!bytes_at_most(b"abd", b"abc"));
    assert!(bytes_at_most(b"b", b"\xff"));
    assert!(!bytes_at_most(b"\x80", b"\x7f"));
}

#[test]
fn fields_are_put_in_order_by_their_bytes() {
    assert!(field_at_most("25", "30"));
    assert!(!field_at_most("30", "25"));
    assert!(field_at_most("25", "25"));
    assert!(field_at_most("10", "9"));
    assert!(field_at_most("Z", "a"));
    assert!(field_at_most("z", "\u{e9}"));
}

#[test]
fn table_in_ascending_order_is_sorted_to_itself() {
    let table = table_of(&[&["k", "v"], &["a", "3"], &["a", "1"], &["b", "2"], &["c", "0"]]);
    assert_eq!(sort_records(&table, 0, SortDirection::Ascending).unwrap(), table);
}

#[test]
fn table_in_descending_order_is_sorted_to_itself() {
    let table = table_of(&[&["k", "v"], &["c", "0"], &["b", "2"], &["a", "3"], &["a", "1"]]);
    assert_eq!(sort_records(&table, 0, SortDirection::Descending).unwrap(), table);
}

#[test]
fn rows_that_all_share_one_key_stay_as_they_are() {
    let table = table_of(&[&["k", "v"], &["x", "3"], &["x", "1"], &["x", "2"]]);
    for direction in [SortDirection::Ascending, SortDirection::Descending] {
        assert_eq!(sort_records(&table, 0, direction).unwrap(), table);
    }
}

#[test]
fn distinct_keys_come_out_reversed_in_the_other_direction() {
    let table = table_of(&[&["k"], &["b"], &["d"], &["a"], &["c"]]);
    let up = sort_records(&table, 0, SortDirection::Ascending).unwrap();
    let down = sort_records(&table, 0, SortDirection::Descending).unwrap();
    assert_eq!(up, table_of(&[&["k"], &["a"], &["b"], &["c"], &["d"]]));
    assert_eq!(down, table_of(&[&["k"], &["d"], &["c"], &["b"], &["a"]]));
}

#[test]
fn shorter_key_comes_before_the_key_that_it_begins() {
    let table = table_of(&[&["k"], &["abc"], &["ab"], &["a"], &[""], &["abd"]]);
    let sorted = sort_records(&table, 0, SortDirection::Ascending).unwrap();
    assert_eq!(sorted, table_of(&[&["k"], &[""], &["a"], &["ab"], &["abc"], &["abd"]]));
}

#[test]
fn sorting_keeps_every_row_whole() {
    let table = table_of(&[
        &["id", "name", "town"],
        &["3", "Cy", "Ulm"],
        &["1", "Al", "Bonn"],
        &["2", "Bo", "Kiel"],
    ]);
    let sorted = sort_records(&table, 0, SortDirection::Ascending).unwrap();
    assert_eq!(
        sorted,
        table_of(&[
            &["id", "name", "town"],
            &["1", "Al", "Bonn"],
            &["2", "Bo", "Kiel"],
            &["3", "Cy", "Ulm"],
        ])
    );
}

#[test]
fn header_is_not_sorted_in_among_the_rows() {
    let table = table_of(&[&["m"], &["z"], &["a"]]);
    let sorted = sort_records(&table, 0, SortDirection::Ascending).unwrap();
    assert_eq!(sorted, table_of(&[&["m"], &["a"], &["z"]]));
}
