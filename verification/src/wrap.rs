//! The soft-wrap indexer: given a text block and a positive column width,
//! the ordered byte offsets at which the terminal begins a new visual row.
//!
//! A "line" is a maximal run of bytes not containing the line-break byte
//! (`\n`), plus the break byte itself when present. The indexer assumes that
//! exactly one byte separates successive lines: a carriage return before the
//! break byte is treated as ordinary content, so the offsets of a document
//! with two-byte separators count the carriage returns as visible columns.

use vstd::prelude::*;

verus! {

/// The offsets a vector holds, as mathematical integers.
pub open spec fn offsets(v: Seq<usize>) -> Seq<int> {
    v.map_values(|x: usize| x as int)
}

/// `s` with every offset moved `k` bytes to the right.
pub open spec fn shift(s: Seq<int>, k: int) -> Seq<int> {
    s.map_values(|x: int| x + k)
}

/// Distance from the start of `s` to its first line-break byte, or `s.len()`
/// when no such byte occurs: the content length of the first explicit line.
pub open spec fn line_head_len(s: Seq<u8>) -> nat
    decreases s.len(),
{
    if s.len() == 0 {
        0
    } else if s[0] == 10u8 {
        0
    } else {
        1 + line_head_len(s.skip(1))
    }
}

/// Row starts contributed by one explicit line of `len` content bytes,
/// relative to the line's first byte: a start every `width` columns, from 0,
/// for as long as at least `width` content bytes remain. The final row also
/// holds the line-break byte (or the end of the text).
pub open spec fn line_row_starts(len: nat, width: nat) -> Seq<int>
    decreases len,
{
    if width == 0 || len < width {
        seq![0int]
    } else {
        seq![0int] + shift(line_row_starts((len - width) as nat, width), width as int)
    }
}

/// Row starts of the whole of `s`, relative to its first byte: each explicit
/// line contributes its own row starts, shifted past the preceding lines and
/// their break bytes (one byte per break).
pub open spec fn row_starts_from(s: Seq<u8>, width: nat) -> Seq<int>
    decreases s.len(),
{
    if s.len() == 0 {
        Seq::empty()
    } else {
        let d: nat = line_head_len(s);
        let rest: Seq<u8> = if d + 1 <= s.len() {
            s.skip((d + 1) as int)
        } else {
            Seq::empty()
        };
        line_row_starts(d, width) + shift(row_starts_from(rest, width), (d + 1) as int)
    }
}

/// The offsets where visual rows begin when `s` is printed at `width`
/// columns. Empty text still occupies exactly one (empty) row, at offset 0.
pub open spec fn row_starts(s: Seq<u8>, width: nat) -> Seq<int> {
    if s.len() == 0 {
        seq![0int]
    } else {
        row_starts_from(s, width)
    }
}

proof fn lemma_shift_concat(a: Seq<int>, b: Seq<int>, k: int)
    ensures
        shift(a + b, k) == shift(a, k) + shift(b, k),
{
    assert(shift(a + b, k) =~= shift(a, k) + shift(b, k));
}

proof fn lemma_shift_shift(a: Seq<int>, j: int, k: int)
    ensures
        shift(shift(a, j), k) == shift(a, j + k),
{
    assert(shift(shift(a, j), k) =~= shift(a, j + k));
}

/// The number of explicit lines in `s`: maximal runs without a break byte,
/// counting the run after the last break byte only when it is nonempty.
pub open spec fn line_count(s: Seq<u8>) -> nat
    decreases s.len(),
{
    if s.len() == 0 {
        0
    } else {
        let d: nat = line_head_len(s);
        let rest: Seq<u8> = if d + 1 <= s.len() {
            s.skip((d + 1) as int)
        } else {
            Seq::empty()
        };
        1 + line_count(rest)
    }
}

/// Every explicit line of `s` has strictly fewer content bytes than `width`.
pub open spec fn lines_fit(s: Seq<u8>, width: nat) -> bool
    decreases s.len(),
{
    if s.len() == 0 {
        true
    } else {
        let d: nat = line_head_len(s);
        let rest: Seq<u8> = if d + 1 <= s.len() {
            s.skip((d + 1) as int)
        } else {
            Seq::empty()
        };
        d < width && lines_fit(rest, width)
    }
}

proof fn lemma_line_head_len_props(s: Seq<u8>)
    ensures
        line_head_len(s) <= s.len(),
        line_head_len(s) < s.len() ==> s[line_head_len(s) as int] == 10u8,
        forall|i: int| 0 <= i < line_head_len(s) ==> s[i] != 10u8,
    decreases s.len(),
{
    if s.len() > 0 && s[0] != 10u8 {
        lemma_line_head_len_props(s.skip(1));
        assert forall|i: int| 0 <= i < line_head_len(s) implies s[i] != 10u8 by {
            if i > 0 {
                assert(s.skip(1)[i - 1] == s[i]);
            }
        }
    }
}

proof fn lemma_line_row_starts_props(len: nat, width: nat)
    requires
        width >= 1,
    ensures
        line_row_starts(len, width).len() >= 1,
        line_row_starts(len, width)[0] == 0,
        forall|i: int|
            0 <= i < line_row_starts(len, width).len() ==> 0 <= #[trigger] line_row_starts(
                len,
                width,
            )[i] <= len,
        forall|i: int, j: int|
            0 <= i < j < line_row_starts(len, width).len() ==> #[trigger] line_row_starts(
                len,
                width,
            )[i] < #[trigger] line_row_starts(len, width)[j],
    decreases len,
{
    if len >= width {
        lemma_line_row_starts_props((len - width) as nat, width);
        let l = line_row_starts(len, width);
        let lp = line_row_starts((len - width) as nat, width);
        assert forall|i: int| 0 <= i < l.len() implies 0 <= #[trigger] l[i] <= len by {
            if i > 0 {
                assert(l[i] == lp[i - 1] + width);
            }
        }
        assert forall|i: int, j: int| 0 <= i < j < l.len() implies #[trigger] l[i]
            < #[trigger] l[j] by {
            assert(l[j] == lp[j - 1] + width);
            if i > 0 {
                assert(l[i] == lp[i - 1] + width);
            }
        }
    }
}

proof fn lemma_row_starts_from_props(s: Seq<u8>, width: nat)
    requires
        width >= 1,
        s.len() > 0,
    ensures
        row_starts_from(s, width).len() >= 1,
        row_starts_from(s, width)[0] == 0,
        forall|i: int|
            0 <= i < row_starts_from(s, width).len() ==> 0 <= #[trigger] row_starts_from(
                s,
                width,
            )[i] <= s.len(),
        forall|i: int, j: int|
            0 <= i < j < row_starts_from(s, width).len() ==> #[trigger] row_starts_from(
                s,
                width,
            )[i] < #[trigger] row_starts_from(s, width)[j],
        s[s.len() - 1] == 10u8 ==> forall|i: int|
            0 <= i < row_starts_from(s, width).len() ==> #[trigger] row_starts_from(s, width)[i]
                < s.len(),
    decreases s.len(),
{
    let d: nat = line_head_len(s);
    lemma_line_head_len_props(s);
    lemma_line_row_starts_props(d, width);
    let rest: Seq<u8> = if d + 1 <= s.len() {
        s.skip((d + 1) as int)
    } else {
        Seq::empty()
    };
    let a = line_row_starts(d, width);
    let b = shift(row_starts_from(rest, width), (d + 1) as int);
    let l = row_starts_from(s, width);
    assert(l == a + b);
    if rest.len() > 0 {
        lemma_row_starts_from_props(rest, width);
    }
    assert forall|i: int| 0 <= i < l.len() implies 0 <= #[trigger] l[i] <= s.len() by {
        if i >= a.len() {
            assert(l[i] == row_starts_from(rest, width)[i - a.len()] + d + 1);
        }
    }
    assert forall|i: int, j: int| 0 <= i < j < l.len() implies #[trigger] l[i] < #[trigger] l[j] by {
        if j >= a.len() {
            assert(l[j] == row_starts_from(rest, width)[j - a.len()] + d + 1);
            assert(row_starts_from(rest, width)[j - a.len()] >= 0);
        }
        if i >= a.len() {
            assert(l[i] == row_starts_from(rest, width)[i - a.len()] + d + 1);
        }
    }
    if s[s.len() - 1] == 10u8 {
        assert(d < s.len());
        if rest.len() > 0 {
            assert(rest[rest.len() - 1] == s[s.len() - 1]);
        }
        assert forall|i: int| 0 <= i < l.len() implies #[trigger] l[i] < s.len() by {
            if i >= a.len() {
                assert(l[i] == row_starts_from(rest, width)[i - a.len()] + d + 1);
                assert(rest.len() > 0);
            }
        }
    }
}

/// The offsets the indexer returns are strictly increasing, start at 0, and
/// never pass the end of the text; when the text ends with a line break they
/// stay strictly inside it. (An empty text, or one whose unterminated last
/// line is an exact positive multiple of the width, puts its final row start
/// at the very end of the text.)
pub proof fn lemma_row_starts_properties(s: Seq<u8>, width: nat)
    requires
        width >= 1,
    ensures
        row_starts(s, width).len() >= 1,
        row_starts(s, width)[0] == 0,
        forall|i: int|
            0 <= i < row_starts(s, width).len() ==> 0 <= #[trigger] row_starts(s, width)[i]
                <= s.len(),
        forall|i: int, j: int|
            0 <= i < j < row_starts(s, width).len() ==> #[trigger] row_starts(s, width)[i]
                < #[trigger] row_starts(s, width)[j],
        s.len() > 0 && s[s.len() - 1] == 10u8 ==> forall|i: int|
            0 <= i < row_starts(s, width).len() ==> #[trigger] row_starts(s, width)[i] < s.len(),
{
    if s.len() > 0 {
        lemma_row_starts_from_props(s, width);
    }
}

/// When every explicit line is strictly narrower than the width, the indexer
/// returns exactly one offset per explicit line.
pub proof fn lemma_one_row_per_line(s: Seq<u8>, width: nat)
    requires
        width >= 1,
        s.len() > 0,
        lines_fit(s, width),
    ensures
        row_starts(s, width).len() == line_count(s),
    decreases s.len(),
{
    let d: nat = line_head_len(s);
    let rest: Seq<u8> = if d + 1 <= s.len() {
        s.skip((d + 1) as int)
    } else {
        Seq::empty()
    };
    assert(line_row_starts(d, width) == seq![0int]);
    assert(row_starts(s, width) == seq![0int] + shift(row_starts_from(rest, width), (d + 1) as int));
    assert(row_starts(s, width).len() == 1 + row_starts_from(rest, width).len());
    if rest.len() > 0 {
        lemma_one_row_per_line(rest, width);
        assert(row_starts_from(rest, width).len() == line_count(rest));
    } else {
        assert(row_starts_from(rest, width).len() == 0);
        assert(line_count(rest) == 0);
    }
    assert(line_count(s) == 1 + line_count(rest));
}

/// Cutting the text at its second row start removes exactly the first row:
/// the remaining rows keep their boundaries, re-based to the suffix.
proof fn lemma_row_starts_step(s: Seq<u8>, width: nat)
    requires
        width >= 1,
        s.len() > 0,
        row_starts(s, width).len() >= 2,
    ensures
        0 < row_starts(s, width)[1] <= s.len(),
        row_starts(s.skip(row_starts(s, width)[1]), width) == shift(
            row_starts(s, width).skip(1),
            -row_starts(s, width)[1],
        ),
{
    let starts = row_starts(s, width);
    let d: nat = line_head_len(s);
    lemma_line_head_len_props(s);
    lemma_line_row_starts_props(d, width);
    lemma_row_starts_properties(s, width);
    let rest: Seq<u8> = if d + 1 <= s.len() {
        s.skip((d + 1) as int)
    } else {
        Seq::empty()
    };
    let a = line_row_starts(d, width);
    let b = shift(row_starts_from(rest, width), (d + 1) as int);
    assert(starts == a + b);
    if d >= width {
        let dr: nat = (d - width) as nat;
        lemma_line_row_starts_props(dr, width);
        assert(a == seq![0int] + shift(line_row_starts(dr, width), width as int));
        assert(a[1] == line_row_starts(dr, width)[0] + width);
        assert(starts[1] == width);
        let s1 = s.skip(width as int);
        if s1.len() == 0 {
            // the whole text is one unterminated line exactly `width` wide
            assert(d == s.len());
            assert(rest.len() == 0);
            assert(line_row_starts(dr, width) == seq![0int]);
            assert(starts =~= seq![0int, width as int]);
            assert(row_starts(s1, width) == seq![0int]);
            assert(shift(starts.skip(1), -(width as int)) =~= seq![0int]);
        } else {
            assert forall|m: int| 0 <= m < dr implies s1[m] != 10u8 by {
                assert(s1[m] == s[m + width]);
            }
            if dr < s1.len() {
                assert(s1[dr as int] == s[d as int]);
            }
            lemma_line_head_len_at(s1, dr);
            let rest1: Seq<u8> = if dr + 1 <= s1.len() {
                s1.skip((dr + 1) as int)
            } else {
                Seq::empty()
            };
            assert(row_starts_from(s1, width) == line_row_starts(dr, width) + shift(
                row_starts_from(rest1, width),
                (dr + 1) as int,
            ));
            if d + 1 <= s.len() {
                assert(rest1 =~= rest);
            } else {
                assert(dr + 1 > s1.len());
                assert(rest1 =~= rest);
            }
            let lhs = row_starts(s1, width);
            let rhs = shift(starts.skip(1), -(width as int));
            assert(lhs.len() == line_row_starts(dr, width).len() + row_starts_from(
                rest,
                width,
            ).len());
            assert(a.len() == 1 + line_row_starts(dr, width).len());
            assert(rhs.len() == lhs.len());
            assert forall|m: int| 0 <= m < lhs.len() implies lhs[m] == rhs[m] by {
                assert(rhs[m] == starts[m + 1] - width);
                if m < line_row_starts(dr, width).len() {
                    assert(lhs[m] == line_row_starts(dr, width)[m]);
                    assert(starts[m + 1] == a[m + 1]);
                    assert(a[m + 1] == line_row_starts(dr, width)[m] + width);
                } else {
                    let mm = m - line_row_starts(dr, width).len();
                    assert(lhs[m] == row_starts_from(rest, width)[mm] + dr + 1);
                    assert(starts[m + 1] == b[mm]);
                    assert(b[mm] == row_starts_from(rest, width)[mm] + d + 1);
                }
            }
            assert(lhs =~= rhs);
        }
    } else {
        // the first line occupies one row; the second row is the next line
        assert(a == seq![0int]);
        assert(row_starts_from(rest, width).len() >= 1);
        assert(rest.len() > 0);
        assert(d + 1 <= s.len());
        lemma_row_starts_from_props(rest, width);
        assert(b[0] == row_starts_from(rest, width)[0] + d + 1);
        assert(starts[1] == b[0]);
        assert(starts[1] == d + 1);
        let lhs = row_starts(s.skip((d + 1) as int), width);
        assert(s.skip((d + 1) as int) == rest);
        assert(lhs == row_starts_from(rest, width));
        let rhs = shift(starts.skip(1), -(d + 1));
        assert(rhs.len() == lhs.len());
        assert forall|m: int| 0 <= m < lhs.len() implies lhs[m] == rhs[m] by {
            assert(rhs[m] == starts[m + 1] - (d + 1));
            assert(starts[m + 1] == b[m]);
            assert(b[m] == row_starts_from(rest, width)[m] + d + 1);
        }
        assert(lhs =~= rhs);
    }
}

/// Every returned offset is a true row boundary: the rows of the text's
/// suffix from the i-th offset are exactly the remaining offsets, re-based
/// to the suffix.
pub proof fn lemma_row_starts_suffix(s: Seq<u8>, width: nat, i: int)
    requires
        width >= 1,
        0 <= i < row_starts(s, width).len(),
    ensures
        0 <= row_starts(s, width)[i] <= s.len(),
        row_starts(s.skip(row_starts(s, width)[i]), width) == shift(
            row_starts(s, width).skip(i),
            -row_starts(s, width)[i],
        ),
    decreases i,
{
    let starts = row_starts(s, width);
    lemma_row_starts_properties(s, width);
    if i == 0 {
        assert(starts[0] == 0);
        assert(s.skip(0) =~= s);
        assert(shift(starts.skip(0), 0) =~= starts);
    } else {
        assert(s.len() > 0);
        lemma_row_starts_step(s, width);
        let c = starts[1];
        let s1 = s.skip(c);
        let starts1 = row_starts(s1, width);
        assert(starts1 == shift(starts.skip(1), -c));
        assert(starts1[i - 1] == starts[i] - c);
        lemma_row_starts_suffix(s1, width, i - 1);
        assert(s1.skip(starts[i] - c) =~= s.skip(starts[i]));
        assert(row_starts(s.skip(starts[i]), width) == shift(
            starts1.skip(i - 1),
            -(starts[i] - c),
        ));
        let lhs = shift(starts1.skip(i - 1), -(starts[i] - c));
        let rhs = shift(starts.skip(i), -starts[i]);
        assert(lhs.len() == rhs.len());
        assert forall|m: int| 0 <= m < lhs.len() implies lhs[m] == rhs[m] by {
            assert(starts1.skip(i - 1)[m] == starts1[i - 1 + m]);
            assert(starts1[i - 1 + m] == starts.skip(1)[i - 1 + m] - c);
            assert(starts.skip(1)[i - 1 + m] == starts[i + m]);
            assert(starts.skip(i)[m] == starts[i + m]);
        }
        assert(lhs =~= rhs);
    }
}

/// `line_head_len` is the scan position where the first break byte stands.
proof fn lemma_line_head_len_at(s: Seq<u8>, m: nat)
    requires
        m <= s.len(),
        forall|i: int| 0 <= i < m ==> s[i] != 10u8,
        m < s.len() ==> s[m as int] == 10u8,
    ensures
        line_head_len(s) == m,
    decreases m,
{
    if m > 0 {
        lemma_line_head_len_at(s.skip(1), (m - 1) as nat);
    }
}

/// Append the row starts of one explicit line whose content occupies
/// `[base, end)`: one start every `width` bytes, beginning at `base`.
fn emit_line_starts(r: &mut Vec<usize>, base: usize, end: usize, width: usize)
    requires
        width >= 1,
        base <= end,
    ensures
        offsets(final(r)@) == offsets(old(r)@) + shift(
            line_row_starts((end - base) as nat, width as nat),
            base as int,
        ),
{
    let ghost w: nat = width as nat;
    let mut cur: usize = base;
    r.push(cur);
    proof {
        assert(offsets(r@) =~= offsets(old(r)@) + seq![base as int]);
        if end - cur >= w {
            assert(line_row_starts((end - base) as nat, w) == seq![0int] + shift(
                line_row_starts((end - base - width) as nat, w),
                width as int,
            ));
            lemma_shift_concat(
                seq![0int],
                shift(line_row_starts((end - base - width) as nat, w), width as int),
                base as int,
            );
            lemma_shift_shift(line_row_starts((end - base - width) as nat, w), width as int, base as int);
            assert(shift(seq![0int], base as int) =~= seq![base as int]);
        } else {
            assert(line_row_starts((end - base) as nat, w) == seq![0int]);
            assert(shift(seq![0int], base as int) =~= seq![base as int]);
            assert(offsets(old(r)@) + seq![base as int] + Seq::<int>::empty() =~= offsets(old(r)@)
                + seq![base as int]);
        }
    }
    while end - cur >= width
        invariant
            width >= 1,
            w == width as nat,
            base <= cur <= end,
            offsets(old(r)@) + shift(line_row_starts((end - base) as nat, w), base as int)
                == offsets(r@) + (if end - cur >= w {
                shift(line_row_starts((end - cur - width) as nat, w), cur + width)
            } else {
                Seq::<int>::empty()
            }),
        decreases end - cur,
    {
        cur = cur + width;
        let ghost rp = r@;
        r.push(cur);
        proof {
            assert(offsets(r@) =~= offsets(rp) + seq![cur as int]);
            if end - cur >= w {
                assert(line_row_starts((end - cur) as nat, w) == seq![0int] + shift(
                    line_row_starts((end - cur - width) as nat, w),
                    width as int,
                ));
                lemma_shift_concat(
                    seq![0int],
                    shift(line_row_starts((end - cur - width) as nat, w), width as int),
                    cur as int,
                );
                lemma_shift_shift(line_row_starts((end - cur - width) as nat, w), width as int, cur as int);
                assert(shift(seq![0int], cur as int) =~= seq![cur as int]);
                assert(offsets(rp) + shift(line_row_starts((end - cur) as nat, w), cur as int)
                    =~= offsets(rp) + seq![cur as int] + shift(
                    line_row_starts((end - cur - width) as nat, w),
                    (cur + width) as int,
                ));
            } else {
                assert(line_row_starts((end - cur) as nat, w) == seq![0int]);
                assert(shift(seq![0int], cur as int) =~= seq![cur as int]);
                assert(offsets(rp) + shift(line_row_starts((end - cur) as nat, w), cur as int)
                    =~= offsets(rp) + seq![cur as int] + Seq::<int>::empty());
            }
        }
    }
    proof {
        assert(offsets(r@) + Seq::<int>::empty() =~= offsets(r@));
    }
}

/// Compute the ordered byte offsets at which the terminal begins a new
/// visual row when `s` is printed at `width` columns, starting at column 0.
pub fn soft_breaks(s: &[u8], width: usize) -> (r: Vec<usize>)
    requires
        width >= 1,
    ensures
        offsets(r@) == row_starts(s@, width as nat),
{
    let ghost w: nat = width as nat;
    let n: usize = s.len();
    let mut r: Vec<usize> = Vec::new();
    if n == 0 {
        r.push(0);
        proof {
            assert(offsets(r@) =~= seq![0int]);
        }
        return r;
    }
    proof {
        assert(s@.skip(0) =~= s@);
        assert(shift(row_starts_from(s@, w), 0) =~= row_starts_from(s@, w));
        assert(offsets(r@) + row_starts_from(s@, w) =~= row_starts_from(s@, w));
    }
    let mut base: usize = 0;
    while base < n
        invariant
            width >= 1,
            w == width as nat,
            n == s@.len(),
            0 < n,
            base <= n,
            row_starts(s@, w) == offsets(r@) + shift(
                row_starts_from(s@.skip(base as int), w),
                base as int,
            ),
        decreases n - base,
    {
        // find the end of the current explicit line
        let mut end: usize = base;
        while end < n && s[end] != 10u8
            invariant
                n == s@.len(),
                base <= end <= n,
                forall|i: int| base <= i < end ==> s@[i] != 10u8,
            decreases n - end,
        {
            end = end + 1;
        }
        let ghost sub = s@.skip(base as int);
        let ghost d: nat = (end - base) as nat;
        proof {
            assert forall|i: int| 0 <= i < d implies sub[i] != 10u8 by {
                assert(sub[i] == s@[base + i]);
            }
            if d < sub.len() {
                assert(sub[d as int] == s@[end as int]);
            }
            lemma_line_head_len_at(sub, d);
        }
        let nb: usize = if end < n {
            end + 1
        } else {
            n
        };
        proof {
            // unfold one line of the suffix and move everything to absolute offsets
            let rest: Seq<u8> = if d + 1 <= sub.len() {
                sub.skip((d + 1) as int)
            } else {
                Seq::<u8>::empty()
            };
            assert(row_starts_from(sub, w) == line_row_starts(d, w) + shift(
                row_starts_from(rest, w),
                (d + 1) as int,
            ));
            assert(rest =~= s@.skip(nb as int));
            lemma_shift_concat(
                line_row_starts(d, w),
                shift(row_starts_from(rest, w), (d + 1) as int),
                base as int,
            );
            lemma_shift_shift(row_starts_from(rest, w), (d + 1) as int, base as int);
            assert(base + d + 1 == nb || end == n);
            if end == n {
                assert(row_starts_from(s@.skip(nb as int), w) == Seq::<int>::empty());
                assert(shift(Seq::<int>::empty(), base + d + 1) =~= Seq::<int>::empty());
                assert(shift(Seq::<int>::empty(), nb as int) =~= Seq::<int>::empty());
            }
            assert(shift(row_starts_from(sub, w), base as int) == shift(
                line_row_starts(d, w),
                base as int,
            ) + shift(row_starts_from(s@.skip(nb as int), w), nb as int));
        }
        let ghost rb = r@;
        emit_line_starts(&mut r, base, end, width);
        proof {
            assert(offsets(rb) + shift(line_row_starts(d, w), base as int) + shift(
                row_starts_from(s@.skip(nb as int), w),
                nb as int,
            ) =~= offsets(rb) + (shift(line_row_starts(d, w), base as int) + shift(
                row_starts_from(s@.skip(nb as int), w),
                nb as int,
            )));
        }
        base = nb;
    }
    proof {
        assert(s@.skip(n as int) =~= Seq::<u8>::empty());
        assert(shift(row_starts_from(Seq::<u8>::empty(), w), n as int) =~= Seq::<int>::empty());
        assert(offsets(r@) + Seq::<int>::empty() =~= offsets(r@));
    }
    r
}

} // verus!
