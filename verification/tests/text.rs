use range_map::entry::RANGE_EMPTY;
use range_map::text::{format_observer, range_report};

fn expected_line(idx: usize, packed: u8) -> String {
    if packed == RANGE_EMPTY {
        format!("  edge {idx:2}: -")
    } else {
        let (lo, hi) = (packed & 0x0F, packed >> 4);
        format!("  edge {idx:2}: buckets {lo}..={hi} ({packed:#04x})")
    }
}

#[test]
fn report_has_one_line_for_each_entry() {
    let mut map = vec![RANGE_EMPTY; 120];
    map[0] = 0x00;
    map[3] = 0x85;
    map[9] = 0xFA;
    map[10] = 0xCB;
    map[119] = 0x10;
    let lines = range_report("All ranges", &map);
    assert_eq!(lines.len(), 121);
    assert_eq!(lines[0], "All ranges:");
    assert_eq!(lines[1], "  edge  0: buckets 0..=0 (0x00)");
    assert_eq!(lines[2], "  edge  1: -");
    assert_eq!(lines[4], "  edge  3: buckets 5..=8 (0x85)");
    assert_eq!(lines[11], "  edge 10: buckets 11..=12 (0xcb)");
    for (idx, packed) in map.iter().enumerate() {
        assert_eq!(lines[idx + 1], expected_line(idx, *packed));
    }
}

#[test]
fn report_on_an_empty_map() {
    assert_eq!(range_report("", &[]), vec![String::from(":")]);
}

#[test]
fn observer_text_from_parts() {
    assert_eq!(
        format_observer("<name>", &vec![]),
        "InputRangeMapObserver { name: <name>, ranges: { } }",
    );
    assert_eq!(
        format_observer("\"n\"", &vec![(7, 0, 15), (1234567890, 3, 3)]),
        "InputRangeMapObserver { name: \"n\", ranges: { 7: 0..=15, 1234567890: 3..=3 } }",
    );
}
