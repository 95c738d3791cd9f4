use liveterm::soft_breaks;

#[test]
fn test_soft_breaks() {
    assert_eq!(soft_breaks(b"foo", 100), vec![0]);
    assert_eq!(soft_breaks(b"foobarqux", 5), vec![0, 5]);
    assert_eq!(soft_breaks(b"foobarqux\n", 5), vec![0, 5]);
    assert_eq!(soft_breaks(b"foo\nbar\nqux", 100), vec![0, 4, 8]);
    assert_eq!(soft_breaks(b"foo\nfoobarquxzap\nfoo", 5), vec![0, 4, 9, 14, 17]);
    assert_eq!(&"foo\nfoobarquxzap\nfoo"[0..4], "foo\n");
    assert_eq!(&"foo\nfoobarquxzap\nfoo"[4..9], "fooba");
    assert_eq!(&"foo\nfoobarquxzap\nfoo"[9..14], "rquxz");
    assert_eq!(&"foo\nfoobarquxzap\nfoo"[14..17], "ap\n");
    assert_eq!(&"foo\nfoobarquxzap\nfoo"[17..], "foo");
}

#[test]
fn test_soft_breaks_empty_input() {
    // empty input still occupies exactly one (empty) row
    assert_eq!(soft_breaks(b"", 5), vec![0]);
    assert_eq!(soft_breaks(b"", 1), vec![0]);
}

#[test]
fn test_soft_breaks_single_break() {
    assert_eq!(soft_breaks(b"\n", 5), vec![0]);
    assert_eq!(soft_breaks(b"a\n\nb", 100), vec![0, 2, 3]);
}

#[test]
fn test_soft_breaks_line_equal_to_width() {
    // a line exactly as wide as the viewport wraps into a trailing row that
    // holds only the break byte (or the end of the text)
    assert_eq!(soft_breaks(b"fooba\n", 5), vec![0, 5]);
    assert_eq!(soft_breaks(b"fooba", 5), vec![0, 5]);
    assert_eq!(soft_breaks(b"foobafooba", 5), vec![0, 5, 10]);
}

#[test]
fn test_soft_breaks_width_one() {
    // every content byte fills its row; unterminated text that is an exact
    // multiple of the width wraps into one trailing empty row
    assert_eq!(soft_breaks(b"abc", 1), vec![0, 1, 2, 3]);
    assert_eq!(soft_breaks(b"ab\n", 1), vec![0, 1, 2]);
}

#[test]
fn test_soft_breaks_offsets_increasing() {
    // offsets start at 0, increase strictly, and stay within the text
    let texts: [&[u8]; 4] = [b"foo\nfoobarquxzap\nfoo", b"foobarqux\n", b"x", b"a\nbb\nccc\n"];
    for t in texts {
        for width in 1..8usize {
            let r = soft_breaks(t, width);
            assert_eq!(r[0], 0);
            for i in 1..r.len() {
                assert!(r[i - 1] < r[i]);
            }
            for &o in &r {
                assert!(o <= t.len());
            }
        }
    }
}

#[test]
fn test_soft_breaks_one_offset_per_line() {
    // width at least one column wider than every line: one offset per line
    assert_eq!(soft_breaks(b"foo\nbar\nqux", 100).len(), 3);
    assert_eq!(soft_breaks(b"a\nbb\nccc\n", 4).len(), 3);
    assert_eq!(soft_breaks(b"lone", 5).len(), 1);
}

#[test]
fn test_soft_breaks_carriage_returns() {
    // only the line-break byte separates lines: a carriage return before it
    // is ordinary content and occupies a column of the width
    assert_eq!(soft_breaks(b"foo\r\nbar\r\nqux", 100), vec![0, 5, 10]);
}
