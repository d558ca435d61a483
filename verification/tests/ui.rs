use rldeck::ui::{capitalised, megabytes};

#[test]
fn labels_read_the_same_in_a_bar_and_in_a_sentence() {
    assert_eq!(capitalised("importing Cool Map"), "Importing Cool Map");
    assert_eq!(capitalised(""), "");
    assert_eq!(capitalised("\u{e9}lan"), "\u{c9}lan");
}

#[test]
fn sizes_are_reported_in_whole_megabytes() {
    assert_eq!(megabytes(0), "0 MB");
    assert_eq!(megabytes(4_120_000), "4 MB");
    assert_eq!(megabytes(999_999_999), "1000 MB");
}

#[test]
fn a_half_megabyte_rounds_to_the_even_neighbour() {
    assert_eq!(megabytes(2_500_000), "2 MB");
    assert_eq!(megabytes(1_500_000), "2 MB");
    assert_eq!(megabytes(1_500_001), "2 MB");
    assert_eq!(megabytes(499_999), "0 MB");
    assert_eq!(megabytes(12_345_678_901), "12346 MB");
    for bytes in [0u64, 1, 499_999, 500_000, 500_001, 2_500_000, 3_500_000, 123_456_789, 987_654_321_000] {
        assert_eq!(megabytes(bytes), format!("{:.0} MB", bytes as f64 / 1_000_000.0), "{bytes}");
    }
}
