use liveterm::fmt_vals;
use liveterm::FmtOpts;
use liveterm::Format;
use liveterm::TermPrinter;

fn entries(pairs: &[(&[u8], u64)]) -> Vec<(Vec<u8>, u64)> {
    pairs.iter().map(|(k, n)| (k.to_vec(), *n)).collect()
}

fn opts(format: Format, reverse: bool, frequency: bool) -> FmtOpts {
    FmtOpts { format, reverse, frequency }
}

#[test]
fn test_fmt_raw_repeats_each_occurrence() {
    let vals = entries(&[(b"a", 2), (b"b", 1)]);
    let mut buf: Vec<u8> = Vec::new();
    fmt_vals(&opts(Format::Raw, false, false), &vals, &mut buf);
    assert_eq!(buf, b"a\na\nb\n".to_vec());
}

#[test]
fn test_fmt_uniq_shows_each_line_once() {
    let vals = entries(&[(b"a", 2), (b"b", 1)]);
    let mut buf: Vec<u8> = Vec::new();
    fmt_vals(&opts(Format::Uniq, false, false), &vals, &mut buf);
    assert_eq!(buf, b"a\nb\n".to_vec());
}

#[test]
fn test_fmt_count_justifies_to_seven_columns() {
    let vals = entries(&[(b"a", 2), (b"b", 1)]);
    let mut buf: Vec<u8> = Vec::new();
    fmt_vals(&opts(Format::Count, false, false), &vals, &mut buf);
    assert_eq!(buf, b"      2 a\n      1 b\n".to_vec());
}

#[test]
fn test_fmt_count_wide_counts_overflow_the_field() {
    let vals = entries(&[(b"a", 1234567), (b"b", 123456789)]);
    let mut buf: Vec<u8> = Vec::new();
    fmt_vals(&opts(Format::Count, false, false), &vals, &mut buf);
    assert_eq!(buf, b"1234567 a\n123456789 b\n".to_vec());
}

#[test]
fn test_fmt_reverse_inverts_the_order() {
    let vals = entries(&[(b"a", 2), (b"b", 1), (b"c", 3)]);
    let mut buf: Vec<u8> = Vec::new();
    fmt_vals(&opts(Format::Uniq, true, false), &vals, &mut buf);
    assert_eq!(buf, b"c\nb\na\n".to_vec());
}

#[test]
fn test_fmt_frequency_orders_by_ascending_count() {
    let vals = entries(&[(b"a", 2), (b"b", 1), (b"c", 3)]);
    let mut buf: Vec<u8> = Vec::new();
    fmt_vals(&opts(Format::Uniq, false, true), &vals, &mut buf);
    assert_eq!(buf, b"b\na\nc\n".to_vec());
}

#[test]
fn test_fmt_frequency_and_reverse() {
    let vals = entries(&[(b"a", 2), (b"b", 1), (b"c", 3)]);
    let mut buf: Vec<u8> = Vec::new();
    fmt_vals(&opts(Format::Uniq, true, true), &vals, &mut buf);
    assert_eq!(buf, b"c\na\nb\n".to_vec());
}

#[test]
fn test_fmt_frequency_sort_is_stable() {
    // equal counts keep the caller's base order
    let vals = entries(&[(b"z", 1), (b"a", 1), (b"m", 2), (b"k", 1)]);
    let mut buf: Vec<u8> = Vec::new();
    fmt_vals(&opts(Format::Uniq, false, true), &vals, &mut buf);
    assert_eq!(buf, b"z\na\nk\nm\n".to_vec());
}

#[test]
fn test_fmt_no_entries() {
    let vals = entries(&[]);
    let mut buf: Vec<u8> = Vec::new();
    buf.push(42);
    fmt_vals(&opts(Format::Raw, false, false), &vals, &mut buf);
    assert_eq!(buf, Vec::<u8>::new());
}

#[test]
fn test_fmt_replaces_previous_buffer_contents() {
    let vals = entries(&[(b"x", 1)]);
    let mut buf: Vec<u8> = b"stale".to_vec();
    fmt_vals(&opts(Format::Raw, false, false), &vals, &mut buf);
    assert_eq!(buf, b"x\n".to_vec());
}

#[test]
fn test_count_frequency_end_to_end() {
    // feeding the lines a, b, a gives counts a:2, b:1; with counted
    // formatting and ascending-frequency ordering the final, unconditionally
    // flushed output shows b before a
    let mut counted: Vec<(Vec<u8>, u64)> = Vec::new();
    for line in [b"a", b"b", b"a"] {
        match counted.iter_mut().find(|(k, _)| k.as_slice() == line.as_slice()) {
            Some(entry) => entry.1 += 1,
            None => counted.push((line.to_vec(), 1)),
        }
    }
    counted.sort_by(|x, y| x.0.cmp(&y.0));
    let mut tp = TermPrinter::new();
    assert_eq!(tp.clear(80).unwrap(), None);
    fmt_vals(&opts(Format::Count, false, true), &counted, &mut tp.buf);
    assert!(tp.print_all().is_ok());
    assert_eq!(tp.buf, b"      1 b\n      2 a\n".to_vec());
}

#[test]
fn test_count_default_order_end_to_end() {
    // the same lines under the caller's base order (by line content): a
    // before b
    let counted = entries(&[(b"a", 2), (b"b", 1)]);
    let mut tp = TermPrinter::new();
    assert_eq!(tp.clear(80).unwrap(), None);
    fmt_vals(&opts(Format::Count, false, false), &counted, &mut tp.buf);
    assert!(tp.print_all().is_ok());
    assert_eq!(tp.buf, b"      2 a\n      1 b\n".to_vec());
}
