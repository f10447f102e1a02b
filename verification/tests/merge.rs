use hashring::range::{merge_ranges, KeyRange, MergedRanges};

fn r(range: std::ops::Range<u64>) -> KeyRange {
    range.into()
}

fn collect(mut merged: MergedRanges) -> Vec<KeyRange> {
    let mut out = Vec::new();
    while let Some(range) = merged.next() {
        out.push(range);
    }
    out
}

#[test]
fn merge_regular_ranges() {
    let ranges = vec![r(3..6), r(8..10), r(2..5), r(1..4)];
    let merged = collect(merge_ranges(ranges));

    assert_eq!(merged, vec![r(1..6), r(8..10)]);

    let ranges = vec![r(3..6), r(8..10), r(2..5), r(1..4), r(0..20)];
    let merged = collect(merge_ranges(ranges));

    assert_eq!(merged, vec![r(0..20)]);
}

#[test]
fn merge_wrapping_ranges() {
    let ranges = vec![r(25..30), r(10..5), r(11..4)];
    let merged = collect(merge_ranges(ranges));

    assert_eq!(merged, vec![r(10..5)]);
}

#[test]
fn merge_empty_input() {
    let merged = collect(merge_ranges(Vec::new()));
    assert_eq!(merged, Vec::new());
}

#[test]
fn merge_sorted_input() {
    let ranges = vec![r(1..4), r(2..5), r(3..6), r(8..10)];
    let merged = collect(hashring::range::merge_ranges_sorted(ranges));

    assert_eq!(merged, vec![r(1..6), r(8..10)]);
}

#[test]
fn merge_idempotent() {
    let ranges = vec![r(3..6), r(8..10), r(2..5), r(1..4)];
    let once = collect(merge_ranges(ranges));
    let twice = collect(merge_ranges(once.clone()));
    assert_eq!(once, twice);
}

#[test]
fn merge_touching_ranges() {
    // Ranges that merely touch (end == next start) merge into one.
    let ranges = vec![r(5..10), r(10..15)];
    let merged = collect(merge_ranges(ranges));

    assert_eq!(merged, vec![r(5..15)]);
}
