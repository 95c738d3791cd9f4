use liveterm::TermPrinter;

#[test]
fn test_new_engine_is_idle() {
    let mut tp = TermPrinter::new();
    assert!(tp.buf.is_empty());
    assert_eq!(tp.cursor(), 0);
    // nothing was ever printed: clear emits nothing
    assert_eq!(tp.clear(80).unwrap(), None);
}

#[test]
fn test_print_selects_viewport_tail() {
    let mut tp = TermPrinter::new();
    tp.buf = b"a\nb\nc\nd\ne\n".to_vec();
    // height 3 leaves 2 rows: the last two lines, starting at "d\n"
    let start = tp.print(100, 3).unwrap();
    assert_eq!(start, 6);
    assert_eq!(&tp.buf[start..], b"d\ne\n");
    assert_eq!(tp.cursor(), 6);
    // a tall viewport shows everything
    let start = tp.print(100, 24).unwrap();
    assert_eq!(start, 0);
    assert_eq!(tp.cursor(), 0);
}

#[test]
fn test_print_empty_buffer() {
    let mut tp = TermPrinter::new();
    let start = tp.print(80, 24).unwrap();
    assert_eq!(start, 0);
    assert_eq!(tp.cursor(), 0);
}

#[test]
fn test_print_twice_is_idempotent() {
    // two prints with the buffer and the viewport untouched: same cursor,
    // same bytes written
    let mut tp = TermPrinter::new();
    tp.buf = b"foo\nfoobarquxzap\nfoo".to_vec();
    let s1 = tp.print(5, 4).unwrap();
    let written1 = tp.buf[s1..].to_vec();
    let c1 = tp.cursor();
    let s2 = tp.print(5, 4).unwrap();
    let written2 = tp.buf[s2..].to_vec();
    assert_eq!(s1, s2);
    assert_eq!(written1, written2);
    assert_eq!(c1, tp.cursor());
}

#[test]
fn test_clear_counts_displayed_rows() {
    let mut tp = TermPrinter::new();
    tp.buf = b"a\nb\nc\nd\ne\n".to_vec();
    let start = tp.print(100, 3).unwrap();
    assert_eq!(start, 6);
    // two rows were drawn; clear erases exactly those two
    assert_eq!(tp.clear(100).unwrap(), Some(2));
    assert_eq!(tp.cursor(), tp.buf.len());
}

#[test]
fn test_clear_idle_is_noop() {
    let mut tp = TermPrinter::new();
    tp.buf = b"a\nb\n".to_vec();
    let _ = tp.print(100, 24).unwrap();
    assert_eq!(tp.clear(100).unwrap(), Some(2));
    // the engine is Idle now: a second clear emits no control sequences
    assert_eq!(tp.clear(100).unwrap(), None);
    assert_eq!(tp.clear(100).unwrap(), None);
}

#[test]
fn test_clear_counts_wrapped_rows() {
    let mut tp = TermPrinter::new();
    tp.buf = b"foobarqux".to_vec();
    let start = tp.print(5, 24).unwrap();
    assert_eq!(start, 0);
    // "foobarqux" at width 5 occupies two visual rows
    assert_eq!(tp.clear(5).unwrap(), Some(2));
}

#[test]
fn test_finalize_retires_the_engine() {
    let mut tp = TermPrinter::new();
    tp.buf = b"a\nb\n".to_vec();
    assert!(tp.print_all().is_ok());
    // after print_all, every further redraw call fails with a usage error
    assert!(tp.clear(80).is_err());
    assert!(tp.print(80, 24).is_err());
    assert!(tp.print_all().is_err());
    // the buffer itself is untouched by finalizing
    assert_eq!(tp.buf, b"a\nb\n".to_vec());
}
