//! The line formatter: turns the aggregated, counted input lines into the
//! text block the redraw engine renders.
//!
//! The caller hands in the distinct observed lines with their occurrence
//! counts, in its own base order (the aggregator keeps them ordered by line
//! content). The formatter optionally reorders them — a stable sort by
//! ascending count, a reversal, or both — and renders every entry as one or
//! more newline-terminated rows: each occurrence on its own row, each
//! distinct line once, or each distinct line once behind its right-justified
//! occurrence count.

use vstd::prelude::*;

verus! {

/// How each entry is rendered.
#[derive(Clone, Copy)]
pub enum Format {
    /// Every occurrence of the line on its own row.
    Raw,
    /// Each distinct line once.
    Uniq,
    /// Each distinct line once, prefixed with its right-justified count.
    Count,
}

/// The recognized formatting options.
pub struct FmtOpts {
    /// How each entry is rendered.
    pub format: Format,
    /// Invert the final order of the entries.
    pub reverse: bool,
    /// Order entries by ascending occurrence count (stably) instead of
    /// keeping the caller's base order.
    pub frequency: bool,
}

/// The entries a vector of (line, count) pairs holds, as mathematical values.
pub open spec fn entries_view(v: Seq<(Vec<u8>, u64)>) -> Seq<(Seq<u8>, u64)> {
    v.map_values(|p: (Vec<u8>, u64)| (p.0@, p.1))
}

/// The decimal digits of `n`, most significant first.
pub open spec fn dec_digits(n: nat) -> Seq<u8>
    decreases n,
{
    if n < 10 {
        seq![(48 + n) as u8]
    } else {
        dec_digits(n / 10).push((48 + (n % 10)) as u8)
    }
}

/// `k` space bytes.
pub open spec fn spaces(k: nat) -> Seq<u8> {
    Seq::new(k, |i: int| 32u8)
}

/// `n` in decimal, right-justified in a field of 7 columns; counts wider
/// than 7 digits overflow the field.
pub open spec fn count_prefix(n: u64) -> Seq<u8> {
    let d = dec_digits(n as nat);
    if d.len() >= 7 {
        d
    } else {
        spaces((7 - d.len()) as nat) + d
    }
}

/// One newline-terminated row holding `key`.
pub open spec fn line_of(key: Seq<u8>) -> Seq<u8> {
    key.push(10u8)
}

/// `s` repeated `n` times.
pub open spec fn repeat_n(s: Seq<u8>, n: nat) -> Seq<u8>
    decreases n,
{
    if n == 0 {
        Seq::empty()
    } else {
        repeat_n(s, (n - 1) as nat) + s
    }
}

/// The rows one entry contributes to the output block.
pub open spec fn entry_block(e: (Seq<u8>, u64), format: Format) -> Seq<u8> {
    match format {
        Format::Raw => repeat_n(line_of(e.0), e.1 as nat),
        Format::Uniq => line_of(e.0),
        Format::Count => count_prefix(e.1) + seq![32u8] + line_of(e.0),
    }
}

/// The rows of all entries, in order.
pub open spec fn blocks(entries: Seq<(Seq<u8>, u64)>, format: Format) -> Seq<u8>
    decreases entries.len(),
{
    if entries.len() == 0 {
        Seq::empty()
    } else {
        blocks(entries.drop_last(), format) + entry_block(entries.last(), format)
    }
}

/// Stable insertion by count: `x` lands after every entry whose count is at
/// most its own, so entries with equal counts keep their relative order.
pub open spec fn insert_by_count(sorted: Seq<(Seq<u8>, u64)>, x: (Seq<u8>, u64)) -> Seq<
    (Seq<u8>, u64),
>
    decreases sorted.len(),
{
    if sorted.len() == 0 {
        seq![x]
    } else if sorted.last().1 <= x.1 {
        sorted.push(x)
    } else {
        insert_by_count(sorted.drop_last(), x).push(sorted.last())
    }
}

/// Stable sort by ascending occurrence count.
pub open spec fn sort_by_count(s: Seq<(Seq<u8>, u64)>) -> Seq<(Seq<u8>, u64)>
    decreases s.len(),
{
    if s.len() == 0 {
        s
    } else {
        insert_by_count(sort_by_count(s.drop_last()), s.last())
    }
}

/// The entries in their final output order.
pub open spec fn ordered(entries: Seq<(Seq<u8>, u64)>, frequency: bool, reverse: bool) -> Seq<
    (Seq<u8>, u64),
> {
    let o = if frequency {
        sort_by_count(entries)
    } else {
        entries
    };
    if reverse {
        o.reverse()
    } else {
        o
    }
}

/// The full text block for the given entries and options.
pub open spec fn fmt_output(entries: Seq<(Seq<u8>, u64)>, opts: FmtOpts) -> Seq<u8> {
    blocks(ordered(entries, opts.frequency, opts.reverse), opts.format)
}

/// Append all of `src` to `dst`.
fn append_bytes(dst: &mut Vec<u8>, src: &[u8])
    ensures
        final(dst)@ == old(dst)@ + src@,
{
    proof {
        assert(old(dst)@ + src@.take(0) =~= old(dst)@);
    }
    let mut i: usize = 0;
    while i < src.len()
        invariant
            i <= src@.len(),
            dst@ == old(dst)@ + src@.take(i as int),
        decreases src@.len() - i,
    {
        let ghost d0 = dst@;
        dst.push(src[i]);
        proof {
            assert(dst@ =~= old(dst)@ + src@.take(i + 1));
        }
        i = i + 1;
    }
    proof {
        assert(src@.take(src@.len() as int) =~= src@);
    }
}

/// An owned copy of a byte vector.
fn clone_bytes(src: &Vec<u8>) -> (r: Vec<u8>)
    ensures
        r@ == src@,
{
    let mut r: Vec<u8> = Vec::new();
    append_bytes(&mut r, src.as_slice());
    proof {
        assert(Seq::<u8>::empty() + src@ =~= src@);
    }
    r
}

/// Append the decimal digits of `n`, most significant first.
fn push_dec(n: u64, out: &mut Vec<u8>)
    ensures
        final(out)@ == old(out)@ + dec_digits(n as nat),
    decreases n,
{
    if n < 10 {
        out.push(48 + n as u8);
        proof {
            assert(old(out)@ + dec_digits(n as nat) =~= old(out)@.push((48 + n as nat) as u8));
        }
    } else {
        push_dec(n / 10, out);
        out.push(48 + (n % 10) as u8);
        proof {
            assert(old(out)@ + dec_digits(n as nat) =~= (old(out)@ + dec_digits((n / 10) as nat)).push(
                (48 + ((n as nat) % 10)) as u8,
            ));
        }
    }
}

/// Append `n` right-justified in a field of 7 columns.
fn push_count_prefix(n: u64, out: &mut Vec<u8>)
    ensures
        final(out)@ == old(out)@ + count_prefix(n),
{
    let mut d: Vec<u8> = Vec::new();
    push_dec(n, &mut d);
    proof {
        assert(Seq::<u8>::empty() + dec_digits(n as nat) =~= dec_digits(n as nat));
    }
    if d.len() < 7 {
        let pad: usize = 7 - d.len();
        proof {
            assert(old(out)@ + spaces(0) =~= old(out)@);
        }
        let mut i: usize = 0;
        while i < pad
            invariant
                i <= pad,
                out@ == old(out)@ + spaces(i as nat),
            decreases pad - i,
        {
            out.push(32);
            proof {
                assert(spaces((i + 1) as nat) =~= spaces(i as nat).push(32u8));
                assert(old(out)@ + spaces(i as nat).push(32u8) =~= (old(out)@ + spaces(i as nat)).push(
                    32u8,
                ));
            }
            i = i + 1;
        }
        append_bytes(out, d.as_slice());
        proof {
            assert((old(out)@ + spaces(pad as nat)) + dec_digits(n as nat) =~= old(out)@ + (spaces(
                pad as nat,
            ) + dec_digits(n as nat)));
        }
    } else {
        append_bytes(out, d.as_slice());
    }
}

/// Append the rows one entry contributes.
fn push_entry(e: &(Vec<u8>, u64), format: Format, out: &mut Vec<u8>)
    ensures
        final(out)@ == old(out)@ + entry_block((e.0@, e.1), format),
{
    match format {
        Format::Raw => {
            proof {
                assert(old(out)@ + repeat_n(line_of(e.0@), 0) =~= old(out)@);
            }
            let mut c: u64 = 0;
            while c < e.1
                invariant
                    c <= e.1,
                    out@ == old(out)@ + repeat_n(line_of(e.0@), c as nat),
                decreases e.1 - c,
            {
                let ghost o0 = out@;
                append_bytes(out, e.0.as_slice());
                out.push(10);
                proof {
                    assert(out@ =~= o0 + line_of(e.0@));
                    assert(repeat_n(line_of(e.0@), (c + 1) as nat) == repeat_n(
                        line_of(e.0@),
                        c as nat,
                    ) + line_of(e.0@));
                    assert(old(out)@ + (repeat_n(line_of(e.0@), c as nat) + line_of(e.0@)) =~= (old(
                        out,
                    )@ + repeat_n(line_of(e.0@), c as nat)) + line_of(e.0@));
                }
                c = c + 1;
            }
        },
        Format::Uniq => {
            append_bytes(out, e.0.as_slice());
            out.push(10);
            proof {
                assert((old(out)@ + e.0@).push(10u8) =~= old(out)@ + line_of(e.0@));
            }
        },
        Format::Count => {
            push_count_prefix(e.1, out);
            out.push(32);
            append_bytes(out, e.0.as_slice());
            out.push(10);
            proof {
                assert(((old(out)@ + count_prefix(e.1)).push(32u8) + e.0@).push(10u8) =~= old(out)@
                    + (count_prefix(e.1) + seq![32u8] + line_of(e.0@)));
            }
        },
    }
}

/// `insert_by_count` puts `x` exactly at the position the stable scan finds.
proof fn lemma_insert_by_count_at(s: Seq<(Seq<u8>, u64)>, x: (Seq<u8>, u64), j: int)
    requires
        0 <= j <= s.len(),
        forall|m: int| j <= m < s.len() ==> s[m].1 > x.1,
        j > 0 ==> s[j - 1].1 <= x.1,
    ensures
        insert_by_count(s, x) == s.insert(j, x),
    decreases s.len(),
{
    if j == s.len() {
        if s.len() == 0 {
            assert(s.insert(0, x) =~= seq![x]);
        } else {
            assert(s.last().1 <= x.1);
            assert(s.insert(j, x) =~= s.push(x));
        }
    } else {
        assert(s.last().1 > x.1);
        lemma_insert_by_count_at(s.drop_last(), x, j);
        assert(s.drop_last().insert(j, x).push(s.last()) =~= s.insert(j, x));
    }
}

/// Sort the entries by ascending count, stably: entries with equal counts
/// keep their relative order.
fn sort_entries(v: Vec<(Vec<u8>, u64)>) -> (r: Vec<(Vec<u8>, u64)>)
    ensures
        entries_view(r@) == sort_by_count(entries_view(v@)),
{
    let ghost ev = entries_view(v@);
    let mut src = v;
    let mut r: Vec<(Vec<u8>, u64)> = Vec::new();
    let ghost mut k: int = 0;
    proof {
        assert(entries_view(r@) =~= Seq::<(Seq<u8>, u64)>::empty());
        assert(sort_by_count(ev.take(0)) == ev.take(0));
        assert(ev.take(0) =~= Seq::<(Seq<u8>, u64)>::empty());
        assert(entries_view(src@) =~= ev.skip(0));
    }
    while src.len() > 0
        invariant
            0 <= k <= ev.len(),
            ev == entries_view(v@),
            entries_view(src@) == ev.skip(k),
            entries_view(r@) == sort_by_count(ev.take(k)),
        decreases src.len(),
    {
        let ghost s0 = src@;
        let x = src.remove(0);
        let ghost xv = (x.0@, x.1);
        proof {
            assert(entries_view(s0).len() == s0.len());
            assert(ev.skip(k).len() == ev.len() - k);
            assert(xv == entries_view(s0)[0]);
            assert(entries_view(s0)[0] == ev.skip(k)[0]);
            assert(ev.skip(k)[0] == ev[k]);
            assert(entries_view(src@).len() == ev.skip(k + 1).len());
            assert forall|m: int| 0 <= m < src@.len() implies entries_view(src@)[m] == ev.skip(
                k + 1,
            )[m] by {
                assert(src@[m] == s0[m + 1]);
                assert(entries_view(src@)[m] == entries_view(s0)[m + 1]);
                assert(entries_view(s0)[m + 1] == ev.skip(k)[m + 1]);
                assert(ev.skip(k)[m + 1] == ev[k + m + 1]);
                assert(ev.skip(k + 1)[m] == ev[k + m + 1]);
            }
            assert(entries_view(src@) =~= ev.skip(k + 1));
        }
        let mut j: usize = r.len();
        while j > 0 && r[j - 1].1 > x.1
            invariant
                j <= r@.len(),
                forall|m: int| j <= m < r@.len() ==> r@[m].1 > x.1,
            decreases j,
        {
            j = j - 1;
        }
        let ghost rv = entries_view(r@);
        proof {
            assert forall|m: int| j <= m < rv.len() implies rv[m].1 > xv.1 by {
                assert(rv[m].1 == r@[m].1);
            }
            if j > 0 {
                assert(rv[j - 1].1 == r@[j - 1].1);
            }
            lemma_insert_by_count_at(rv, xv, j as int);
        }
        r.insert(j, x);
        proof {
            assert(entries_view(r@) =~= rv.insert(j as int, xv));
            assert(ev.take(k + 1).drop_last() =~= ev.take(k));
            assert(ev.take(k + 1).last() == ev[k]);
            assert(sort_by_count(ev.take(k + 1)) == insert_by_count(sort_by_count(ev.take(k)), ev[k]));
            k = k + 1;
        }
    }
    proof {
        assert(ev.skip(k).len() == 0);
        assert(ev.take(k) =~= ev);
    }
    r
}

/// The entries in the opposite order.
fn reverse_entries(v: Vec<(Vec<u8>, u64)>) -> (r: Vec<(Vec<u8>, u64)>)
    ensures
        entries_view(r@) == entries_view(v@).reverse(),
{
    let ghost ev = entries_view(v@);
    let mut src = v;
    let mut r: Vec<(Vec<u8>, u64)> = Vec::new();
    proof {
        assert(entries_view(src@) =~= ev.take(ev.len() as int));
        assert(entries_view(r@) =~= ev.skip(ev.len() as int).reverse());
    }
    while src.len() > 0
        invariant
            ev == entries_view(v@),
            src@.len() <= ev.len(),
            entries_view(src@) == ev.take(src@.len() as int),
            entries_view(r@) == ev.skip(src@.len() as int).reverse(),
        decreases src.len(),
    {
        let ghost m = src@.len() as int;
        let x = src.pop().unwrap();
        proof {
            assert((x.0@, x.1) == ev.take(m)[m - 1]);
            assert(ev.take(m)[m - 1] == ev[m - 1]);
            assert(entries_view(src@) =~= ev.take(m - 1));
        }
        let ghost rv = entries_view(r@);
        r.push(x);
        proof {
            assert(entries_view(r@) =~= rv.push(ev[m - 1]));
            assert(ev.skip(m).reverse().push(ev[m - 1]) =~= ev.skip(m - 1).reverse());
        }
    }
    proof {
        assert(ev.skip(0).reverse() =~= ev.reverse());
    }
    r
}

/// Replace `buf` with the full text block for `vals` under `opts`: the
/// entries in their final order, each rendered as its newline-terminated
/// rows.
pub fn fmt_vals(opts: &FmtOpts, vals: &Vec<(Vec<u8>, u64)>, buf: &mut Vec<u8>)
    ensures
        final(buf)@ == fmt_output(entries_view(vals@), *opts),
{
    let ghost ev = entries_view(vals@);
    buf.clear();
    // an owned, reorderable copy of the entries
    let mut entries: Vec<(Vec<u8>, u64)> = Vec::new();
    proof {
        assert(entries_view(entries@) =~= ev.take(0));
    }
    let mut i: usize = 0;
    while i < vals.len()
        invariant
            i <= vals@.len(),
            ev == entries_view(vals@),
            entries_view(entries@) == ev.take(i as int),
        decreases vals@.len() - i,
    {
        let key = clone_bytes(&vals[i].0);
        let cnt = vals[i].1;
        let ghost e0 = entries@;
        entries.push((key, cnt));
        proof {
            assert(entries@ == e0.push((key, cnt)));
            assert(ev.len() == vals@.len());
            assert(entries_view(e0).len() == e0.len());
            assert(e0.len() == i);
            assert(entries_view(entries@).len() == entries@.len());
            assert(entries_view(entries@).len() == ev.take(i + 1).len());
            assert forall|m: int| 0 <= m < entries@.len() implies entries_view(entries@)[m]
                == ev.take(i + 1)[m] by {
                if m < i {
                    assert(entries@[m] == e0[m]);
                    assert(entries_view(e0)[m] == ev.take(i as int)[m]);
                    assert(ev.take(i as int)[m] == ev[m]);
                    assert(ev.take(i + 1)[m] == ev[m]);
                } else {
                    assert(entries@[m] == (key, cnt));
                    assert(ev[i as int] == (vals@[i as int].0@, vals@[i as int].1));
                    assert(ev.take(i + 1)[m] == ev[i as int]);
                }
            }
            assert(entries_view(entries@) =~= ev.take(i + 1));
        }
        i = i + 1;
    }
    proof {
        assert(ev.take(vals@.len() as int) =~= ev);
    }
    let entries = if opts.frequency {
        sort_entries(entries)
    } else {
        entries
    };
    let entries = if opts.reverse {
        reverse_entries(entries)
    } else {
        entries
    };
    let ghost evo = entries_view(entries@);
    proof {
        assert(evo == ordered(ev, opts.frequency, opts.reverse));
    }
    let mut j: usize = 0;
    proof {
        assert(buf@ =~= blocks(evo.take(0), opts.format));
    }
    while j < entries.len()
        invariant
            j <= entries@.len(),
            evo == entries_view(entries@),
            buf@ == blocks(evo.take(j as int), opts.format),
        decreases entries@.len() - j,
    {
        let e = &entries[j];
        push_entry(e, opts.format, buf);
        proof {
            assert((e.0@, e.1) == evo[j as int]);
            assert(evo.take(j + 1).drop_last() =~= evo.take(j as int));
            assert(evo.take(j + 1).last() == evo[j as int]);
            assert(blocks(evo.take(j + 1), opts.format) == blocks(evo.take(j as int), opts.format)
                + entry_block(evo[j as int], opts.format));
        }
        j = j + 1;
    }
    proof {
        assert(evo.take(entries@.len() as int) =~= evo);
    }
}

} // verus!
