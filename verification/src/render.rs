//! Rendering of an aggregation outcome: two summary lines followed, when
//! any valid bucket exists, by a bordered table with a `Type`, a `Count`
//! and a `Bytes` column.
//!
//! Column widths grow with the widest cell but never fall under the width
//! of the column's header word; keys are left-aligned, numbers
//! right-aligned, and the borders use box-drawing glyphs.

use vstd::prelude::*;

use crate::aggregate::AggV;
use crate::aggregate::AggregateResult;
use crate::aggregate::BucketV;
use crate::aggregate::EntryV;
use crate::aggregate::TypedEntry;
use crate::digits::dec_str;
use crate::digits::get_str_len;
use crate::digits::spec_dec;
use crate::digits::spec_digit_len;

verus! {

/// `n` spaces.
pub open spec fn spec_spaces(n: nat) -> Seq<char>
    decreases n,
{
    if n == 0 {
        Seq::empty()
    } else {
        spec_spaces((n - 1) as nat) + " "@
    }
}

/// `piece` repeated `n` times.
pub open spec fn spec_repeat(piece: Seq<char>, n: nat) -> Seq<char>
    decreases n,
{
    if n == 0 {
        Seq::empty()
    } else {
        spec_repeat(piece, (n - 1) as nat) + piece
    }
}

/// How many fill characters a cell of content length `l` needs in a column
/// of width `w`.
pub open spec fn pad_amount(l: nat, w: nat) -> nat {
    if l >= w {
        0
    } else {
        (w - l) as nat
    }
}

/// `s` left-aligned in a cell of width `w`: content first, spaces after.
pub open spec fn spec_pad_right(s: Seq<char>, w: nat) -> Seq<char> {
    s + spec_spaces(pad_amount(s.len(), w))
}

/// `s` right-aligned in a cell of width `w`: spaces first, content after.
pub open spec fn spec_pad_left(s: Seq<char>, w: nat) -> Seq<char> {
    spec_spaces(pad_amount(s.len(), w)) + s
}

/// The width of the `Type` column: the widest key, floored at the width of
/// the word `Type`.
pub open spec fn col1_width(entries: Seq<EntryV>) -> nat
    decreases entries.len(),
{
    if entries.len() == 0 {
        4
    } else {
        let r = col1_width(entries.drop_last());
        if entries.last().key.len() > r {
            entries.last().key.len()
        } else {
            r
        }
    }
}

/// The width of the `Count` column: the widest count, floored at the width
/// of the word `Count`.
pub open spec fn col2_width(entries: Seq<EntryV>) -> nat
    decreases entries.len(),
{
    if entries.len() == 0 {
        5
    } else {
        let r = col2_width(entries.drop_last());
        if spec_digit_len(entries.last().count) > r {
            spec_digit_len(entries.last().count)
        } else {
            r
        }
    }
}

/// The width of the `Bytes` column: the widest byte total, floored at the
/// width of the word `Bytes`.
pub open spec fn col3_width(entries: Seq<EntryV>) -> nat
    decreases entries.len(),
{
    if entries.len() == 0 {
        5
    } else {
        let r = col3_width(entries.drop_last());
        if spec_digit_len(entries.last().bytes) > r {
            spec_digit_len(entries.last().bytes)
        } else {
            r
        }
    }
}

/// Column widths never fall under the widths of the header words, whatever
/// the buckets hold.
pub proof fn lemma_width_floors(entries: Seq<EntryV>)
    ensures
        col1_width(entries) >= 4,
        col2_width(entries) >= 5,
        col3_width(entries) >= 5,
    decreases entries.len(),
{
    if entries.len() > 0 {
        lemma_width_floors(entries.drop_last());
    }
}

/// The summary line for the invalid bucket.
pub open spec fn spec_invalid_line(count: nat, bytes: nat) -> Seq<char> {
    "Found "@ + spec_dec(count) + " invalid log lines ("@ + spec_dec(bytes) + " bytes)"@
}

/// The summary line for the number of valid types.
pub open spec fn spec_valid_line(n: nat) -> Seq<char> {
    "Found "@ + spec_dec(n) + " valid log types"@
}

/// The invalid summary comes first, and only when the bucket exists.
pub open spec fn spec_invalid_lines(inv: Option<BucketV>) -> Seq<Seq<char>> {
    match inv {
        Some(b) => seq![spec_invalid_line(b.count, b.bytes)],
        None => Seq::empty(),
    }
}

/// The summary lines of an outcome: the invalid bucket's line when present,
/// then the count of valid types.
pub open spec fn spec_summary(agg: AggV) -> Seq<Seq<char>> {
    spec_invalid_lines(agg.invalid) + seq![spec_valid_line(agg.entries.len())]
}

/// A border: a corner, three fill segments two wider than their columns,
/// junctions between them, and a closing corner.
pub open spec fn spec_rule(
    l: Seq<char>,
    fill: Seq<char>,
    m: Seq<char>,
    r: Seq<char>,
    w1: nat,
    w2: nat,
    w3: nat,
) -> Seq<char> {
    l + spec_repeat(fill, w1 + 2) + m + spec_repeat(fill, w2 + 2) + m + spec_repeat(fill, w3 + 2)
        + r
}

/// The header row: the three column names, left-aligned.
pub open spec fn spec_header(w1: nat, w2: nat, w3: nat) -> Seq<char> {
    "\u{2503} "@ + spec_pad_right("Type"@, w1) + " \u{2503} "@ + spec_pad_right("Count"@, w2)
        + " \u{2503} "@ + spec_pad_right("Bytes"@, w3) + " \u{2503}"@
}

/// One body row: the key left-aligned, the two numbers right-aligned.
pub open spec fn spec_row(e: EntryV, w1: nat, w2: nat, w3: nat) -> Seq<char> {
    "\u{2502} "@ + spec_pad_right(e.key, w1) + " \u{2502} "@ + spec_pad_left(
        spec_dec(e.count),
        w2,
    ) + " \u{2502} "@ + spec_pad_left(spec_dec(e.bytes), w3) + " \u{2502}"@
}

/// The body rows, one per bucket, in the buckets' order.
pub open spec fn spec_rows(entries: Seq<EntryV>, w1: nat, w2: nat, w3: nat) -> Seq<Seq<char>>
    decreases entries.len(),
{
    if entries.len() == 0 {
        Seq::empty()
    } else {
        spec_rows(entries.drop_last(), w1, w2, w3) + seq![
            spec_row(entries.last(), w1, w2, w3),
        ]
    }
}

/// The full report for an outcome: the summary lines, and the bordered
/// table when at least one valid bucket exists.
pub open spec fn spec_render(agg: AggV) -> Seq<Seq<char>> {
    if agg.entries.len() == 0 {
        spec_summary(agg)
    } else {
        let w1 = col1_width(agg.entries);
        let w2 = col2_width(agg.entries);
        let w3 = col3_width(agg.entries);
        spec_summary(agg) + seq![
            spec_rule("\u{250f}"@, "\u{2501}"@, "\u{2533}"@, "\u{2513}"@, w1, w2, w3),
            spec_header(w1, w2, w3),
            spec_rule("\u{2521}"@, "\u{2501}"@, "\u{2547}"@, "\u{2529}"@, w1, w2, w3),
        ] + spec_rows(agg.entries, w1, w2, w3) + seq![
            spec_rule("\u{2514}"@, "\u{2500}"@, "\u{2534}"@, "\u{2518}"@, w1, w2, w3),
        ]
    }
}

/// `s` left-aligned in a cell of width `w`.
fn pad_right_str(s: &str, w: usize) -> (r: String)
    ensures
        r@ == spec_pad_right(s@, w as nat),
{
    let len = s.unicode_len();
    let mut r = String::from_str(s);
    proof {
        assert(r@ =~= s@ + spec_spaces(0));
    }
    let mut i: usize = len;
    while i < w
        invariant
            len == s@.len(),
            len <= i,
            i == len || i <= w,
            r@ == s@ + spec_spaces((i - len) as nat),
        decreases w - i,
    {
        r.append(" ");
        proof {
            assert((s@ + spec_spaces((i - len) as nat)) + " "@ =~= s@ + (spec_spaces(
                (i - len) as nat,
            ) + " "@));
        }
        i = i + 1;
    }
    r
}

/// `s` right-aligned in a cell of width `w`.
fn pad_left_str(s: &str, w: usize) -> (r: String)
    ensures
        r@ == spec_pad_left(s@, w as nat),
{
    let len = s.unicode_len();
    let mut r = String::new();
    let mut i: usize = len;
    while i < w
        invariant
            len == s@.len(),
            len <= i,
            i == len || i <= w,
            r@ == spec_spaces((i - len) as nat),
        decreases w - i,
    {
        r.append(" ");
        i = i + 1;
    }
    r.append(s);
    r
}

/// A fill segment two characters wider than its column.
fn fill_seg(fill: &str, w: usize) -> (r: String)
    ensures
        r@ == spec_repeat(fill@, w as nat + 2),
{
    let mut r = String::new();
    proof {
        assert(r@ =~= spec_repeat(fill@, 0));
    }
    let mut i: usize = 0;
    while i < w
        invariant
            0 <= i <= w,
            r@ == spec_repeat(fill@, i as nat),
        decreases w - i,
    {
        r.append(fill);
        i = i + 1;
    }
    r.append(fill);
    proof {
        assert(spec_repeat(fill@, w as nat + 1) == spec_repeat(fill@, w as nat) + fill@);
    }
    r.append(fill);
    proof {
        assert(spec_repeat(fill@, w as nat + 2) == spec_repeat(fill@, w as nat + 1) + fill@);
    }
    r
}

/// One border line, from its corner, fill, and junction glyphs.
fn rule_line(l: &str, fill: &str, m: &str, r: &str, w1: usize, w2: usize, w3: usize) -> (out:
    String)
    ensures
        out@ == spec_rule(l@, fill@, m@, r@, w1 as nat, w2 as nat, w3 as nat),
{
    let mut out = String::from_str(l);
    let s1 = fill_seg(fill, w1);
    out.append(s1.as_str());
    out.append(m);
    let s2 = fill_seg(fill, w2);
    out.append(s2.as_str());
    out.append(m);
    let s3 = fill_seg(fill, w3);
    out.append(s3.as_str());
    out.append(r);
    out
}

/// The header row.
fn header_line(w1: usize, w2: usize, w3: usize) -> (out: String)
    ensures
        out@ == spec_header(w1 as nat, w2 as nat, w3 as nat),
{
    let mut out = String::from_str("\u{2503} ");
    let c1 = pad_right_str("Type", w1);
    out.append(c1.as_str());
    out.append(" \u{2503} ");
    let c2 = pad_right_str("Count", w2);
    out.append(c2.as_str());
    out.append(" \u{2503} ");
    let c3 = pad_right_str("Bytes", w3);
    out.append(c3.as_str());
    out.append(" \u{2503}");
    out
}

/// One body row for one bucket.
fn row_line(e: &TypedEntry, w1: usize, w2: usize, w3: usize) -> (out: String)
    ensures
        out@ == spec_row(e@, w1 as nat, w2 as nat, w3 as nat),
{
    let mut out = String::from_str("\u{2502} ");
    let c1 = pad_right_str(e.key.as_str(), w1);
    out.append(c1.as_str());
    out.append(" \u{2502} ");
    let cnt = dec_str(e.count);
    let c2 = pad_left_str(cnt.as_str(), w2);
    out.append(c2.as_str());
    out.append(" \u{2502} ");
    let byt = dec_str(e.total_bytes);
    let c3 = pad_left_str(byt.as_str(), w3);
    out.append(c3.as_str());
    out.append(" \u{2502}");
    out
}

/// The three column widths for a bucket sequence.
fn col_widths(entries: &Vec<TypedEntry>) -> (w: (usize, usize, usize))
    ensures
        w.0 == col1_width(entries.deep_view()),
        w.1 == col2_width(entries.deep_view()),
        w.2 == col3_width(entries.deep_view()),
{
    let ghost ev = entries.deep_view();
    proof {
        assert(ev.take(0) =~= Seq::<EntryV>::empty());
    }
    let mut w1: usize = 4;
    let mut w2: usize = 5;
    let mut w3: usize = 5;
    let n = entries.len();
    let mut i: usize = 0;
    while i < n
        invariant
            0 <= i <= n,
            n == entries@.len(),
            ev == entries.deep_view(),
            ev.len() == entries@.len(),
            w1 == col1_width(ev.take(i as int)),
            w2 == col2_width(ev.take(i as int)),
            w3 == col3_width(ev.take(i as int)),
        decreases n - i,
    {
        proof {
            assert(ev.take(i + 1).drop_last() =~= ev.take(i as int));
            assert(ev.take(i + 1).last() == ev[i as int]);
            assert(ev[i as int] == entries@[i as int]@);
        }
        let kl = entries[i].key.as_str().unicode_len();
        if kl > w1 {
            w1 = kl;
        }
        let cd = get_str_len(entries[i].count);
        if cd > w2 {
            w2 = cd;
        }
        let bd = get_str_len(entries[i].total_bytes);
        if bd > w3 {
            w3 = bd;
        }
        i = i + 1;
    }
    proof {
        assert(ev.take(n as int) =~= ev);
    }
    (w1, w2, w3)
}

/// Renders an aggregation outcome: the invalid-bucket summary when that
/// bucket exists, the count of valid types, and, when any valid bucket
/// exists, the aligned table with one row per key in sorted order.
pub fn render(result: &AggregateResult) -> (lines: Vec<String>)
    ensures
        lines.deep_view() == spec_render(result@),
{
    let ghost agg = result@;
    let mut out: Vec<String> = Vec::new();
    match &result.invalid {
        Some(e) => {
            let mut line = String::from_str("Found ");
            let c = dec_str(e.count);
            line.append(c.as_str());
            line.append(" invalid log lines (");
            let b = dec_str(e.total_bytes);
            line.append(b.as_str());
            line.append(" bytes)");
            out.push(line);
            proof {
                assert(out.deep_view() =~= spec_invalid_lines(agg.invalid));
            }
        },
        None => {
            proof {
                assert(out.deep_view() =~= spec_invalid_lines(agg.invalid));
            }
        },
    }
    let mut counts_line = String::from_str("Found ");
    let n = result.entries.len();
    let d = dec_str(n);
    counts_line.append(d.as_str());
    counts_line.append(" valid log types");
    out.push(counts_line);
    proof {
        assert(agg.entries.len() == result.entries@.len());
        assert(out.deep_view() =~= spec_summary(agg));
    }
    if n > 0 {
        let ghost ev = agg.entries;
        let widths = col_widths(&result.entries);
        let w1 = widths.0;
        let w2 = widths.1;
        let w3 = widths.2;
        let top = rule_line("\u{250f}", "\u{2501}", "\u{2533}", "\u{2513}", w1, w2, w3);
        out.push(top);
        let hdr = header_line(w1, w2, w3);
        out.push(hdr);
        let sep = rule_line("\u{2521}", "\u{2501}", "\u{2547}", "\u{2529}", w1, w2, w3);
        out.push(sep);
        let ghost head = spec_summary(agg) + seq![
            spec_rule("\u{250f}"@, "\u{2501}"@, "\u{2533}"@, "\u{2513}"@, w1 as nat, w2 as nat, w3 as nat),
            spec_header(w1 as nat, w2 as nat, w3 as nat),
            spec_rule("\u{2521}"@, "\u{2501}"@, "\u{2547}"@, "\u{2529}"@, w1 as nat, w2 as nat, w3 as nat),
        ];
        proof {
            assert(out.deep_view() =~= head);
            assert(spec_rows(ev.take(0), w1 as nat, w2 as nat, w3 as nat)
                =~= Seq::<Seq<char>>::empty());
            assert(out.deep_view() =~= head + spec_rows(
                ev.take(0),
                w1 as nat,
                w2 as nat,
                w3 as nat,
            ));
        }
        let mut i: usize = 0;
        while i < n
            invariant
                0 <= i <= n,
                n == result.entries@.len(),
                ev == result.entries.deep_view(),
                ev.len() == n,
                out.deep_view() == head + spec_rows(ev.take(i as int), w1 as nat, w2 as nat, w3 as nat),
            decreases n - i,
        {
            proof {
                assert(ev.take(i + 1).drop_last() =~= ev.take(i as int));
                assert(ev.take(i + 1).last() == ev[i as int]);
                assert(ev[i as int] == result.entries@[i as int]@);
            }
            let ghost old_deep = out.deep_view();
            let ghost rowv = spec_row(ev[i as int], w1 as nat, w2 as nat, w3 as nat);
            let row = row_line(&result.entries[i], w1, w2, w3);
            out.push(row);
            proof {
                assert(spec_rows(ev.take(i + 1), w1 as nat, w2 as nat, w3 as nat)
                    =~= spec_rows(ev.take(i as int), w1 as nat, w2 as nat, w3 as nat) + seq![
                    rowv,
                ]);
                assert(out.deep_view() =~= old_deep + seq![rowv]);
                assert(out.deep_view() =~= head + spec_rows(
                    ev.take(i + 1),
                    w1 as nat,
                    w2 as nat,
                    w3 as nat,
                ));
            }
            i = i + 1;
        }
        let bottom = rule_line("\u{2514}", "\u{2500}", "\u{2534}", "\u{2518}", w1, w2, w3);
        out.push(bottom);
        proof {
            assert(ev.take(n as int) =~= ev);
            assert(out.deep_view() =~= spec_render(agg));
        }
    } else {
        proof {
            assert(out.deep_view() =~= spec_render(agg));
        }
    }
    out
}

} // verus!
