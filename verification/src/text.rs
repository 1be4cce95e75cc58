//! Text groundwork for the aggregator: UTF-8 byte lengths of lines, the
//! lexicographic order used to sort classification keys, and the split of the
//! raw input into lines.

use vstd::prelude::*;

verus! {

/// How many bytes the UTF-8 encoding of one character takes.
pub open spec fn char_width(c: char) -> nat {
    if (c as u32) < 0x80 {
        1
    } else if (c as u32) < 0x800 {
        2
    } else if (c as u32) < 0x10000 {
        3
    } else {
        4
    }
}

/// How many bytes the UTF-8 encoding of a character sequence takes.
pub open spec fn byte_len(s: Seq<char>) -> nat
    decreases s.len(),
{
    if s.len() == 0 {
        0
    } else {
        byte_len(s.drop_last()) + char_width(s.last())
    }
}

/// The byte length of a concatenation is the sum of the byte lengths.
pub proof fn lemma_byte_len_concat(a: Seq<char>, b: Seq<char>)
    ensures
        byte_len(a + b) == byte_len(a) + byte_len(b),
    decreases b.len(),
{
    if b.len() == 0 {
        assert(a + b =~= a);
    } else {
        lemma_byte_len_concat(a, b.drop_last());
        assert((a + b).drop_last() =~= a + b.drop_last());
        assert((a + b).last() == b.last());
    }
}

/// Appending one character adds that character's width.
pub proof fn lemma_byte_len_push(s: Seq<char>, c: char)
    ensures
        byte_len(s.push(c)) == byte_len(s) + char_width(c),
{
    assert(s.push(c).drop_last() =~= s);
}

/// The byte length of a character sequence is the length of its UTF-8
/// encoding.
pub proof fn lemma_byte_len_matches_encoding(s: Seq<char>)
    ensures
        byte_len(s) == vstd::utf8::encode_utf8(s).len(),
    decreases s.len(),
{
    if s.len() > 0 {
        lemma_byte_len_matches_encoding(s.drop_first());
        lemma_byte_len_concat(seq![s[0]], s.drop_first());
        assert(seq![s[0]] + s.drop_first() =~= s);
        assert(byte_len(seq![s[0]]) == char_width(s[0])) by {
            assert(seq![s[0]].drop_last() =~= Seq::<char>::empty());
            assert(byte_len(Seq::<char>::empty()) == 0);
            assert(seq![s[0]].last() == s[0]);
        }
        vstd::utf8::char_is_scalar(s[0]);
        assert(vstd::utf8::encode_scalar(s[0] as u32).len() == char_width(s[0]));
    }
}

/// The UTF-8 byte length of a string.
pub fn byte_len_of(s: &str) -> (n: usize)
    requires
        byte_len(s@) <= usize::MAX,
    ensures
        n == byte_len(s@),
{
    proof {
        lemma_byte_len_matches_encoding(s@);
    }
    s.len()
}

/// Strict lexicographic order on character sequences, by unicode scalar
/// value, with a proper prefix ordered before the longer sequence.
pub open spec fn lex_lt(a: Seq<char>, b: Seq<char>) -> bool
    decreases a.len(),
{
    if b.len() == 0 {
        false
    } else if a.len() == 0 {
        true
    } else if a[0] == b[0] {
        lex_lt(a.drop_first(), b.drop_first())
    } else {
        (a[0] as u32) < (b[0] as u32)
    }
}

/// Whether `a` orders strictly before `b` lexicographically.
pub fn str_lt(a: &str, b: &str) -> (r: bool)
    ensures
        r == lex_lt(a@, b@),
{
    let alen = a.unicode_len();
    let blen = b.unicode_len();
    proof {
        assert(a@.skip(0) =~= a@);
        assert(b@.skip(0) =~= b@);
    }
    let mut i: usize = 0;
    while i < alen && i < blen
        invariant
            0 <= i <= alen,
            0 <= i <= blen,
            alen == a@.len(),
            blen == b@.len(),
            lex_lt(a@, b@) == lex_lt(a@.skip(i as int), b@.skip(i as int)),
        decreases alen - i,
    {
        let ca = a.get_char(i);
        let cb = b.get_char(i);
        if ca == cb {
            proof {
                assert(a@.skip(i + 1) =~= a@.skip(i as int).drop_first());
                assert(b@.skip(i + 1) =~= b@.skip(i as int).drop_first());
                assert(a@.skip(i as int)[0] == ca);
                assert(b@.skip(i as int)[0] == cb);
            }
            i = i + 1;
        } else {
            proof {
                assert(a@.skip(i as int)[0] == ca);
                assert(b@.skip(i as int)[0] == cb);
            }
            return (ca as u32) < (cb as u32);
        }
    }
    proof {
        if i >= alen {
            assert(a@.skip(i as int) =~= Seq::<char>::empty());
        } else {
            assert(b@.skip(i as int) =~= Seq::<char>::empty());
        }
    }
    alen < blen
}

/// The segments of `t` between newline characters; always at least one
/// segment, and one more for every newline.
pub open spec fn spec_split(t: Seq<char>) -> Seq<Seq<char>>
    decreases t.len(),
{
    if t.len() == 0 {
        seq![Seq::<char>::empty()]
    } else if t.last() == '\n' {
        spec_split(t.drop_last()).push(Seq::<char>::empty())
    } else {
        let rest = spec_split(t.drop_last());
        rest.update(rest.len() - 1, rest.last().push(t.last()))
    }
}

/// A split always has at least one segment.
pub proof fn lemma_split_nonempty(t: Seq<char>)
    ensures
        spec_split(t).len() >= 1,
    decreases t.len(),
{
    if t.len() > 0 {
        lemma_split_nonempty(t.drop_last());
    }
}

/// One trailing carriage return removed, as the line terminator of a
/// CRLF-delimited input.
pub open spec fn spec_strip_cr(s: Seq<char>) -> Seq<char> {
    if s.len() > 0 && s.last() == '\r' {
        s.drop_last()
    } else {
        s
    }
}

/// Every segment with its trailing carriage return removed.
pub open spec fn strip_all(segs: Seq<Seq<char>>) -> Seq<Seq<char>> {
    segs.map_values(|s: Seq<char>| spec_strip_cr(s))
}

/// Stripping distributes over appending a segment.
pub proof fn lemma_strip_all_push(segs: Seq<Seq<char>>, v: Seq<char>)
    ensures
        strip_all(segs.push(v)) =~= strip_all(segs).push(spec_strip_cr(v)),
{
}

/// The lines of the raw input `t`: the segments between newline characters,
/// each with one trailing carriage return removed.
pub open spec fn spec_lines(t: Seq<char>) -> Seq<Seq<char>> {
    strip_all(spec_split(t))
}

/// The summed byte length of a sequence of lines.
pub open spec fn total_byte_len(lines: Seq<Seq<char>>) -> nat
    decreases lines.len(),
{
    if lines.len() == 0 {
        0
    } else {
        total_byte_len(lines.drop_last()) + byte_len(lines.last())
    }
}

/// No line outweighs the sequence it belongs to.
pub proof fn lemma_total_byte_len_element(lines: Seq<Seq<char>>, i: int)
    requires
        0 <= i < lines.len(),
    ensures
        byte_len(lines[i]) <= total_byte_len(lines),
    decreases lines.len(),
{
    if i < lines.len() - 1 {
        lemma_total_byte_len_element(lines.drop_last(), i);
    }
}

/// Splitting never grows the text: the segments together take at most as
/// many bytes as the text they came from.
pub proof fn lemma_split_total_byte_len(t: Seq<char>)
    ensures
        total_byte_len(spec_split(t)) <= byte_len(t),
    decreases t.len(),
{
    if t.len() == 0 {
        assert(spec_split(t) =~= seq![Seq::<char>::empty()]);
        assert(spec_split(t).drop_last() =~= Seq::<Seq<char>>::empty());
        assert(total_byte_len(Seq::<Seq<char>>::empty()) == 0);
        assert(spec_split(t).last() =~= Seq::<char>::empty());
        assert(byte_len(Seq::<char>::empty()) == 0);
        assert(total_byte_len(spec_split(t)) <= byte_len(t));
    } else {
        lemma_split_total_byte_len(t.drop_last());
        lemma_split_nonempty(t.drop_last());
        let rest = spec_split(t.drop_last());
        assert(byte_len(t) == byte_len(t.drop_last()) + char_width(t.last()));
        if t.last() == '\n' {
            let grown = rest.push(Seq::<char>::empty());
            assert(spec_split(t) == grown);
            assert(grown.drop_last() =~= rest);
            assert(total_byte_len(grown) == total_byte_len(rest));
            assert(total_byte_len(spec_split(t)) <= byte_len(t));
        } else {
            let updated = rest.update(rest.len() - 1, rest.last().push(t.last()));
            assert(spec_split(t) == updated);
            assert(updated.drop_last() =~= rest.drop_last());
            assert(updated.last() == rest.last().push(t.last()));
            lemma_byte_len_push(rest.last(), t.last());
            assert(total_byte_len(updated) == total_byte_len(rest.drop_last()) + byte_len(
                rest.last(),
            ) + char_width(t.last()));
            assert(total_byte_len(rest) == total_byte_len(rest.drop_last()) + byte_len(
                rest.last(),
            ));
            assert(total_byte_len(updated) <= byte_len(t));
            assert(total_byte_len(spec_split(t)) <= byte_len(t));
        }
    }
}

/// Stripping the carriage return never grows a line.
pub proof fn lemma_strip_cr_byte_len(s: Seq<char>)
    ensures
        byte_len(spec_strip_cr(s)) <= byte_len(s),
{
}

/// The lines of `t` together take at most as many bytes as `t` itself.
pub proof fn lemma_lines_total_byte_len(t: Seq<char>)
    ensures
        total_byte_len(spec_lines(t)) <= byte_len(t),
{
    lemma_split_total_byte_len(t);
    lemma_map_strip_total(spec_split(t));
}

/// Stripping carriage returns from every segment never grows the total.
proof fn lemma_map_strip_total(segs: Seq<Seq<char>>)
    ensures
        total_byte_len(strip_all(segs)) <= total_byte_len(segs),
    decreases segs.len(),
{
    let mapped = strip_all(segs);
    if segs.len() > 0 {
        lemma_map_strip_total(segs.drop_last());
        assert(mapped.drop_last() =~= strip_all(segs.drop_last()));
        assert(mapped.last() == spec_strip_cr(segs.last()));
        lemma_strip_cr_byte_len(segs.last());
    }
}

/// Relies on `str::chars`: it yields exactly the characters of the string
/// in order.
#[verifier::external_body]
fn str_chars(s: &str) -> (r: Vec<char>)
    ensures
        r@ == s@,
{
    s.chars().collect()
}

/// Relies on `String`'s `FromIterator` impl: collecting characters builds
/// the string of exactly those characters in order.
#[verifier::external_body]
fn chars_string(v: &Vec<char>) -> (r: String)
    ensures
        r@ == v@,
{
    v.iter().collect()
}

/// Turns a finished segment into a line: one trailing carriage return
/// removed, if any.
fn finish_line(cur: Vec<char>) -> (r: String)
    ensures
        r@ == spec_strip_cr(cur@),
{
    let mut v = cur;
    if v.len() > 0 {
        let last = v[v.len() - 1];
        if last == '\r' {
            v.pop();
        }
    }
    chars_string(&v)
}

/// Splits the raw input into lines: one segment between each pair of newline
/// characters, with one trailing carriage return removed per segment.
pub fn split_lines(text: &str) -> (lines: Vec<String>)
    ensures
        lines.deep_view() == spec_lines(text@),
{
    let chars = str_chars(text);
    let len = chars.len();
    let mut done: Vec<String> = Vec::new();
    let mut cur: Vec<char> = Vec::new();
    let mut i: usize = 0;
    while i < len
        invariant
            0 <= i <= len,
            len == chars@.len(),
            chars@ == text@,
            spec_split(text@.take(i as int)).len() >= 1,
            done.deep_view() == strip_all(spec_split(text@.take(i as int)).drop_last()),
            cur@ == spec_split(text@.take(i as int)).last(),
        decreases len - i,
    {
        let ghost prefix = text@.take(i as int);
        let ghost next_prefix = text@.take(i + 1);
        let ghost raw = spec_split(prefix);
        proof {
            assert(next_prefix.drop_last() =~= prefix);
            assert(next_prefix.last() == text@[i as int]);
            lemma_split_nonempty(next_prefix);
        }
        let c = chars[i];
        if c == '\n' {
            let ghost old_done = done.deep_view();
            let finished = finish_line(cur);
            done.push(finished);
            cur = Vec::new();
            proof {
                let split_next = spec_split(next_prefix);
                assert(split_next =~= raw.push(Seq::<char>::empty()));
                assert(split_next.drop_last() =~= raw);
                assert(done.deep_view() =~= old_done.push(spec_strip_cr(raw.last())));
                lemma_strip_all_push(raw.drop_last(), raw.last());
                assert(raw.drop_last().push(raw.last()) =~= raw);
                assert(done.deep_view() =~= strip_all(raw));
            }
        } else {
            cur.push(c);
            proof {
                let split_next = spec_split(next_prefix);
                assert(split_next =~= raw.update(
                    raw.len() - 1,
                    raw.last().push(text@[i as int]),
                ));
                assert(split_next.drop_last() =~= raw.drop_last());
                assert(cur@ =~= raw.last().push(text@[i as int]));
                assert(done.deep_view() =~= strip_all(split_next.drop_last()));
            }
        }
        i = i + 1;
    }
    let ghost old_done = done.deep_view();
    let finished = finish_line(cur);
    done.push(finished);
    proof {
        assert(text@.take(len as int) =~= text@);
        let raw = spec_split(text@);
        assert(done.deep_view() =~= old_done.push(spec_strip_cr(raw.last())));
        lemma_strip_all_push(raw.drop_last(), raw.last());
        assert(raw.drop_last().push(raw.last()) =~= raw);
        assert(done.deep_view() =~= strip_all(raw));
    }
    done
}

} // verus!
