//! The aggregation pass: classify every non-empty line and accumulate one
//! (count, total-bytes) bucket per classification key, with a dedicated
//! bucket for the lines that could not be classified.
//!
//! The valid buckets are kept sorted by key throughout, so the result of a
//! pass is a pure function of the input lines and two runs over the same
//! input produce identical results.

use vstd::prelude::*;

use crate::classify::classify;
use crate::classify::type_key_of;
use crate::text::byte_len;
use crate::text::byte_len_of;
use crate::text::lemma_lines_total_byte_len;
use crate::text::lemma_total_byte_len_element;
use crate::text::lex_lt;
use crate::text::spec_lines;
use crate::text::split_lines;
use crate::text::str_lt;
use crate::text::total_byte_len;

verus! {

/// One valid bucket: a classification key with the number of lines mapped
/// to it and their summed byte length.
#[derive(Debug, Clone, PartialEq, Eq)]
pub struct TypedEntry {
    pub key: String,
    pub count: usize,
    pub total_bytes: usize,
}

/// The bucket of the lines that could not be classified.
#[derive(Debug, Clone, PartialEq, Eq)]
pub struct AggregateEntry {
    pub count: usize,
    pub total_bytes: usize,
}

/// The outcome of one aggregation pass: the valid buckets sorted by key,
/// and the invalid bucket when at least one line failed classification.
#[derive(Debug, Clone, PartialEq, Eq)]
pub struct AggregateResult {
    pub entries: Vec<TypedEntry>,
    pub invalid: Option<AggregateEntry>,
}

/// The mathematical shadow of one valid bucket.
pub ghost struct EntryV {
    pub key: Seq<char>,
    pub count: nat,
    pub bytes: nat,
}

/// The mathematical shadow of the invalid bucket.
pub ghost struct BucketV {
    pub count: nat,
    pub bytes: nat,
}

/// The mathematical shadow of an aggregation outcome.
pub ghost struct AggV {
    pub entries: Seq<EntryV>,
    pub invalid: Option<BucketV>,
}

impl View for TypedEntry {
    type V = EntryV;

    open spec fn view(&self) -> EntryV {
        EntryV { key: self.key@, count: self.count as nat, bytes: self.total_bytes as nat }
    }
}

impl DeepView for TypedEntry {
    type V = EntryV;

    open spec fn deep_view(&self) -> EntryV {
        self@
    }
}

impl View for AggregateEntry {
    type V = BucketV;

    open spec fn view(&self) -> BucketV {
        BucketV { count: self.count as nat, bytes: self.total_bytes as nat }
    }
}

/// The shadow of an optional invalid bucket.
pub open spec fn opt_bucket_view(inv: Option<AggregateEntry>) -> Option<BucketV> {
    match inv {
        Some(e) => Some(e@),
        None => None,
    }
}

impl View for AggregateResult {
    type V = AggV;

    open spec fn view(&self) -> AggV {
        AggV { entries: self.entries.deep_view(), invalid: opt_bucket_view(self.invalid) }
    }
}

/// Accounts one line of `b` bytes to the bucket of key `k` in a key-sorted
/// entry sequence: an existing bucket grows by one line and `b` bytes, and
/// a missing one is created at its sorted position with one line.
pub open spec fn spec_bump(entries: Seq<EntryV>, k: Seq<char>, b: nat) -> Seq<EntryV>
    decreases entries.len(),
{
    if entries.len() == 0 {
        seq![EntryV { key: k, count: 1, bytes: b }]
    } else if lex_lt(k, entries[0].key) {
        seq![EntryV { key: k, count: 1, bytes: b }] + entries
    } else if k == entries[0].key {
        seq![
            EntryV {
                key: entries[0].key,
                count: entries[0].count + 1,
                bytes: entries[0].bytes + b,
            },
        ] + entries.drop_first()
    } else {
        seq![entries[0]] + spec_bump(entries.drop_first(), k, b)
    }
}

/// Accounts one unclassifiable line of `b` bytes to the invalid bucket,
/// creating the bucket at its first line.
pub open spec fn spec_bump_invalid(inv: Option<BucketV>, b: nat) -> Option<BucketV> {
    match inv {
        None => Some(BucketV { count: 1, bytes: b }),
        Some(bu) => Some(BucketV { count: bu.count + 1, bytes: bu.bytes + b }),
    }
}

/// The aggregation of a line sequence: empty lines are skipped, every other
/// line is accounted to the bucket of its classification key, and lines
/// without a key go to the invalid bucket.
pub open spec fn spec_aggregate(lines: Seq<Seq<char>>) -> AggV
    decreases lines.len(),
{
    if lines.len() == 0 {
        AggV { entries: Seq::empty(), invalid: None }
    } else {
        let prev = spec_aggregate(lines.drop_last());
        let l = lines.last();
        if l.len() == 0 {
            prev
        } else {
            match type_key_of(l) {
                Some(k) => AggV {
                    entries: spec_bump(prev.entries, k, byte_len(l)),
                    invalid: prev.invalid,
                },
                None => AggV {
                    entries: prev.entries,
                    invalid: spec_bump_invalid(prev.invalid, byte_len(l)),
                },
            }
        }
    }
}

/// The summed line count of a sequence of valid buckets.
pub open spec fn sum_counts(entries: Seq<EntryV>) -> nat
    decreases entries.len(),
{
    if entries.len() == 0 {
        0
    } else {
        entries[0].count + sum_counts(entries.drop_first())
    }
}

/// The summed byte total of a sequence of valid buckets.
pub open spec fn sum_bytes(entries: Seq<EntryV>) -> nat
    decreases entries.len(),
{
    if entries.len() == 0 {
        0
    } else {
        entries[0].bytes + sum_bytes(entries.drop_first())
    }
}

/// The line count of the invalid bucket, zero when absent.
pub open spec fn invalid_count(inv: Option<BucketV>) -> nat {
    match inv {
        Some(b) => b.count,
        None => 0,
    }
}

/// The byte total of the invalid bucket, zero when absent.
pub open spec fn invalid_bytes(inv: Option<BucketV>) -> nat {
    match inv {
        Some(b) => b.bytes,
        None => 0,
    }
}

/// How many lines of the input are non-empty.
pub open spec fn count_nonempty(lines: Seq<Seq<char>>) -> nat
    decreases lines.len(),
{
    if lines.len() == 0 {
        0
    } else {
        count_nonempty(lines.drop_last()) + if lines.last().len() > 0 {
            1nat
        } else {
            0nat
        }
    }
}

/// The summed byte length of the non-empty lines of the input.
pub open spec fn nonempty_total_bytes(lines: Seq<Seq<char>>) -> nat
    decreases lines.len(),
{
    if lines.len() == 0 {
        0
    } else {
        nonempty_total_bytes(lines.drop_last()) + if lines.last().len() > 0 {
            byte_len(lines.last())
        } else {
            0nat
        }
    }
}

/// Lexicographic order never relates a sequence to itself.
pub proof fn lemma_lex_lt_irreflexive(a: Seq<char>)
    ensures
        !lex_lt(a, a),
    decreases a.len(),
{
    if a.len() > 0 {
        lemma_lex_lt_irreflexive(a.drop_first());
    }
}

/// Lexicographic order is asymmetric, and strictly ordered sequences differ.
pub proof fn lemma_lex_lt_asymmetric(a: Seq<char>, b: Seq<char>)
    requires
        lex_lt(a, b),
    ensures
        !lex_lt(b, a),
        a != b,
    decreases a.len(),
{
    if a.len() > 0 && b.len() > 0 && a[0] == b[0] {
        lemma_lex_lt_asymmetric(a.drop_first(), b.drop_first());
        assert(a != b) by {
            if a == b {
                assert(a.drop_first() == b.drop_first());
            }
        }
    }
}

/// Any two sequences are lexicographically ordered one way or the other,
/// or equal.
pub proof fn lemma_lex_lt_trichotomy(a: Seq<char>, b: Seq<char>)
    ensures
        lex_lt(a, b) || lex_lt(b, a) || a == b,
    decreases a.len(),
{
    if a.len() == 0 {
        if b.len() == 0 {
            assert(a =~= b);
        }
    } else if b.len() == 0 {
    } else if a[0] == b[0] {
        lemma_lex_lt_trichotomy(a.drop_first(), b.drop_first());
        if a.drop_first() == b.drop_first() {
            assert(a.drop_first().len() == b.drop_first().len());
            assert forall|i: int| 0 <= i < a.len() implies a[i] == b[i] by {
                if i > 0 {
                    assert(a[i] == a.drop_first()[i - 1]);
                    assert(b[i] == b.drop_first()[i - 1]);
                }
            }
            assert(a =~= b);
        }
    } else {
        assert((a[0] as u32) != (b[0] as u32)) by {
            vstd::utf8::char_is_scalar(a[0]);
            vstd::utf8::char_is_scalar(b[0]);
            if (a[0] as u32) == (b[0] as u32) {
                vstd::utf8::char_u32_cast(a[0], a[0] as u32);
                vstd::utf8::char_u32_cast(b[0], b[0] as u32);
            }
        }
    }
}

/// Summing a sequence with one bucket put in front adds that bucket.
proof fn lemma_sum_cons(e: EntryV, s: Seq<EntryV>)
    ensures
        sum_counts(seq![e] + s) == e.count + sum_counts(s),
        sum_bytes(seq![e] + s) == e.bytes + sum_bytes(s),
{
    assert((seq![e] + s).drop_first() =~= s);
    assert((seq![e] + s)[0] == e);
}

/// Accounting one line to a bucket grows the summed counts by one and the
/// summed bytes by that line's length.
pub proof fn lemma_bump_sums(entries: Seq<EntryV>, k: Seq<char>, b: nat)
    ensures
        sum_counts(spec_bump(entries, k, b)) == sum_counts(entries) + 1,
        sum_bytes(spec_bump(entries, k, b)) == sum_bytes(entries) + b,
    decreases entries.len(),
{
    let newv = EntryV { key: k, count: 1, bytes: b };
    if entries.len() == 0 {
        assert(seq![newv].drop_first() =~= Seq::<EntryV>::empty());
        assert(seq![newv][0] == newv);
        assert(sum_counts(Seq::<EntryV>::empty()) == 0);
        assert(sum_bytes(Seq::<EntryV>::empty()) == 0);
        assert(sum_counts(seq![newv]) == 1);
        assert(sum_bytes(seq![newv]) == b);
    } else if lex_lt(k, entries[0].key) {
        lemma_sum_cons(newv, entries);
    } else if k == entries[0].key {
        let bumped = EntryV {
            key: entries[0].key,
            count: entries[0].count + 1,
            bytes: entries[0].bytes + b,
        };
        lemma_sum_cons(bumped, entries.drop_first());
    } else {
        lemma_bump_sums(entries.drop_first(), k, b);
        lemma_sum_cons(entries[0], spec_bump(entries.drop_first(), k, b));
    }
}

/// No single bucket outweighs the sums over all buckets.
pub proof fn lemma_sum_element(entries: Seq<EntryV>, j: int)
    requires
        0 <= j < entries.len(),
    ensures
        entries[j].count <= sum_counts(entries),
        entries[j].bytes <= sum_bytes(entries),
    decreases entries.len(),
{
    if j > 0 {
        lemma_sum_element(entries.drop_first(), j - 1);
        assert(entries.drop_first()[j - 1] == entries[j]);
    }
}

/// There are no more non-empty lines than lines.
pub proof fn lemma_count_nonempty_le(lines: Seq<Seq<char>>)
    ensures
        count_nonempty(lines) <= lines.len(),
    decreases lines.len(),
{
    if lines.len() > 0 {
        lemma_count_nonempty_le(lines.drop_last());
    }
}

/// The non-empty lines take at most the bytes of all lines.
pub proof fn lemma_nonempty_le_total(lines: Seq<Seq<char>>)
    ensures
        nonempty_total_bytes(lines) <= total_byte_len(lines),
    decreases lines.len(),
{
    if lines.len() > 0 {
        lemma_nonempty_le_total(lines.drop_last());
    }
}

/// A prefix of the input contributes at most the whole input's non-empty
/// byte total.
pub proof fn lemma_nonempty_prefix(lines: Seq<Seq<char>>, j: int)
    requires
        0 <= j <= lines.len(),
    ensures
        nonempty_total_bytes(lines.take(j)) <= nonempty_total_bytes(lines),
    decreases lines.len() - j,
{
    if j == lines.len() {
        assert(lines.take(j) =~= lines);
    } else {
        assert(lines.take(j + 1).drop_last() =~= lines.take(j));
        assert(lines.take(j + 1).last() == lines[j]);
        lemma_nonempty_prefix(lines, j + 1);
    }
}

/// Every non-empty line is accounted exactly once: the counts of all valid
/// buckets and of the invalid bucket sum to the number of non-empty lines,
/// and their byte totals sum to those lines' summed byte length.
pub proof fn lemma_aggregate_partition(lines: Seq<Seq<char>>)
    ensures
        sum_counts(spec_aggregate(lines).entries) + invalid_count(spec_aggregate(lines).invalid)
            == count_nonempty(lines),
        sum_bytes(spec_aggregate(lines).entries) + invalid_bytes(spec_aggregate(lines).invalid)
            == nonempty_total_bytes(lines),
    decreases lines.len(),
{
    if lines.len() > 0 {
        lemma_aggregate_partition(lines.drop_last());
        let l = lines.last();
        if l.len() > 0 {
            match type_key_of(l) {
                Some(k) => {
                    lemma_bump_sums(spec_aggregate(lines.drop_last()).entries, k, byte_len(l));
                },
                None => {},
            }
        }
    }
}

/// Finds the bucket at index `idx` or later whose key still orders at or
/// after `key`, and accounts one line of `bytes` bytes to the bucket of
/// `key`, creating it in sorted position if it is missing.
fn bump(entries: &mut Vec<TypedEntry>, key: String, bytes: usize)
    requires
        forall|j: int|
            0 <= j < old(entries).deep_view().len() ==> (#[trigger] old(
                entries,
            ).deep_view()[j]).count + 1 <= usize::MAX && old(entries).deep_view()[j].bytes + bytes
                <= usize::MAX,
    ensures
        final(entries).deep_view() == spec_bump(old(entries).deep_view(), key@, bytes as nat),
{
    let ghost s = old(entries).deep_view();
    let ghost b = bytes as nat;
    let n = entries.len();
    proof {
        assert(s.skip(0) =~= s);
        assert(s.take(0) =~= Seq::<EntryV>::empty());
        assert(s.take(0) + spec_bump(s.skip(0), key@, b) =~= spec_bump(s, key@, b));
    }
    let mut idx: usize = 0;
    loop
        invariant
            0 <= idx <= n,
            n == entries@.len(),
            entries@ == old(entries)@,
            s == entries.deep_view(),
            spec_bump(s, key@, b) == s.take(idx as int) + spec_bump(s.skip(idx as int), key@, b),
        ensures
            0 <= idx <= n,
            entries@ == old(entries)@,
            spec_bump(s, key@, b) == s.take(idx as int) + spec_bump(s.skip(idx as int), key@, b),
            idx == n || !lex_lt(s[idx as int].key, key@),
        decreases n - idx,
    {
        if idx >= n {
            break ;
        }
        proof {
            assert(s[idx as int] == entries@[idx as int]@);
        }
        let less = str_lt(entries[idx].key.as_str(), key.as_str());
        if !less {
            break ;
        }
        proof {
            let tail = s.skip(idx as int);
            assert(tail[0] == s[idx as int]);
            lemma_lex_lt_asymmetric(tail[0].key, key@);
            assert(spec_bump(tail, key@, b) == seq![tail[0]] + spec_bump(
                tail.drop_first(),
                key@,
                b,
            ));
            assert(tail.drop_first() =~= s.skip(idx + 1));
            assert(s.take(idx as int) + seq![s[idx as int]] =~= s.take(idx + 1));
            assert(s.take(idx as int) + (seq![tail[0]] + spec_bump(s.skip(idx + 1), key@, b))
                =~= s.take(idx + 1) + spec_bump(s.skip(idx + 1), key@, b));
        }
        idx = idx + 1;
    }
    let ghost newv = EntryV { key: key@, count: 1, bytes: b };
    if idx == n {
        proof {
            assert(s.skip(n as int) =~= Seq::<EntryV>::empty());
            assert(spec_bump(Seq::<EntryV>::empty(), key@, b) =~= seq![newv]);
            assert(s.take(n as int) =~= s);
        }
        entries.push(TypedEntry { key, count: 1, total_bytes: bytes });
        proof {
            assert(entries.deep_view() =~= s + seq![newv]);
        }
    } else {
        proof {
            assert(s[idx as int] == entries@[idx as int]@);
        }
        let same = entries[idx].key == key;
        if same {
            let c = entries[idx].count;
            let tb = entries[idx].total_bytes;
            proof {
                assert(s[idx as int].count == c && s[idx as int].bytes == tb);
            }
            entries[idx] = TypedEntry { key, count: c + 1, total_bytes: tb + bytes };
            proof {
                let tail = s.skip(idx as int);
                assert(tail[0] == s[idx as int]);
                lemma_lex_lt_irreflexive(key@);
                let bumped = EntryV { key: tail[0].key, count: tail[0].count + 1, bytes: tail[0].bytes + b };
                assert(spec_bump(tail, key@, b) == seq![bumped] + tail.drop_first());
                assert(tail.drop_first() =~= s.skip(idx + 1));
                assert(entries.deep_view() =~= s.take(idx as int) + (seq![bumped] + s.skip(
                    idx + 1,
                )));
            }
        } else {
            entries.insert(idx, TypedEntry { key, count: 1, total_bytes: bytes });
            proof {
                let tail = s.skip(idx as int);
                assert(tail[0] == s[idx as int]);
                lemma_lex_lt_trichotomy(key@, tail[0].key);
                assert(lex_lt(key@, tail[0].key));
                assert(spec_bump(tail, key@, b) == seq![newv] + tail);
                assert(entries.deep_view() =~= s.take(idx as int) + (seq![newv] + s.skip(
                    idx as int,
                )));
            }
        }
    }
}

/// Aggregates a sequence of lines: skips the empty ones, classifies each
/// other line, and accounts it to the bucket of its key, with unclassifiable
/// lines in the dedicated invalid bucket. The valid buckets come out sorted
/// by key, so the result is a pure function of the input.
pub fn aggregate(lines: &Vec<String>) -> (r: AggregateResult)
    requires
        total_byte_len(lines.deep_view()) <= usize::MAX,
    ensures
        r@ == spec_aggregate(lines.deep_view()),
{
    let ghost lv = lines.deep_view();
    let n = lines.len();
    proof {
        assert(lv.take(0) =~= Seq::<Seq<char>>::empty());
    }
    let mut entries: Vec<TypedEntry> = Vec::new();
    let mut invalid: Option<AggregateEntry> = None;
    let mut i: usize = 0;
    while i < n
        invariant
            0 <= i <= n,
            n == lines@.len(),
            lv == lines.deep_view(),
            total_byte_len(lv) <= usize::MAX,
            entries.deep_view() == spec_aggregate(lv.take(i as int)).entries,
            opt_bucket_view(invalid) == spec_aggregate(lv.take(i as int)).invalid,
        decreases n - i,
    {
        let ghost prev = spec_aggregate(lv.take(i as int));
        let ghost next = spec_aggregate(lv.take(i + 1));
        proof {
            assert(lv.take(i + 1).drop_last() =~= lv.take(i as int));
            assert(lv.take(i + 1).last() == lv[i as int]);
            assert(lv[i as int] == lines@[i as int]@);
            lemma_total_byte_len_element(lv, i as int);
        }
        let line = &lines[i];
        if !line.as_str().is_empty() {
            let b = byte_len_of(line.as_str());
            let key_opt = classify(line.as_str());
            proof {
                lemma_aggregate_partition(lv.take(i as int));
                lemma_count_nonempty_le(lv.take(i as int));
                assert(lv.take(i as int).len() == i);
                assert(nonempty_total_bytes(lv.take(i + 1)) == nonempty_total_bytes(
                    lv.take(i as int),
                ) + byte_len(lv[i as int]));
                lemma_nonempty_prefix(lv, i + 1);
                lemma_nonempty_le_total(lv);
            }
            match key_opt {
                Some(key) => {
                    proof {
                        assert forall|j: int| 0 <= j < entries.deep_view().len() implies (
                        #[trigger] entries.deep_view()[j]).count + 1 <= usize::MAX
                            && entries.deep_view()[j].bytes + b <= usize::MAX by {
                            lemma_sum_element(prev.entries, j);
                        }
                    }
                    bump(&mut entries, key, b);
                },
                None => {
                    let new_inv: AggregateEntry;
                    match &invalid {
                        None => {
                            new_inv = AggregateEntry { count: 1, total_bytes: b };
                        },
                        Some(e) => {
                            new_inv = AggregateEntry {
                                count: e.count + 1,
                                total_bytes: e.total_bytes + b,
                            };
                        },
                    }
                    invalid = Some(new_inv);
                },
            }
        }
        i = i + 1;
    }
    proof {
        assert(lv.take(n as int) =~= lv);
    }
    AggregateResult { entries, invalid }
}

/// Aggregates a raw text blob: splits it into lines and aggregates them.
/// Running this twice on the same text gives identical results.
pub fn aggregate_text(text: &str) -> (r: AggregateResult)
    requires
        byte_len(text@) <= usize::MAX,
    ensures
        r@ == spec_aggregate(spec_lines(text@)),
{
    let lines = split_lines(text);
    proof {
        lemma_lines_total_byte_len(text@);
    }
    aggregate(&lines)
}

/// Lexicographic order is transitive.
pub proof fn lemma_lex_lt_transitive(a: Seq<char>, b: Seq<char>, c: Seq<char>)
    requires
        lex_lt(a, b),
        lex_lt(b, c),
    ensures
        lex_lt(a, c),
    decreases a.len(),
{
    if a.len() > 0 {
        if a[0] == b[0] && b[0] == c[0] {
            lemma_lex_lt_transitive(a.drop_first(), b.drop_first(), c.drop_first());
        }
    }
}

/// Whether the valid buckets are in strictly ascending key order.
pub open spec fn entries_sorted(entries: Seq<EntryV>) -> bool {
    forall|i: int, j: int|
        0 <= i < j < entries.len() ==> lex_lt(
            #[trigger] entries[i].key,
            #[trigger] entries[j].key,
        )
}

/// Every key of an accounted bucket sequence stays above a strict lower
/// bound that lies below the new key too.
proof fn lemma_bump_lower(entries: Seq<EntryV>, k: Seq<char>, b: nat, lo: Seq<char>)
    requires
        lex_lt(lo, k),
        forall|i: int| 0 <= i < entries.len() ==> lex_lt(lo, #[trigger] entries[i].key),
    ensures
        forall|j: int|
            0 <= j < spec_bump(entries, k, b).len() ==> lex_lt(
                lo,
                #[trigger] spec_bump(entries, k, b)[j].key,
            ),
    decreases entries.len(),
{
    let out = spec_bump(entries, k, b);
    if entries.len() == 0 {
        assert(out[0].key == k);
    } else if lex_lt(k, entries[0].key) {
        assert forall|j: int| 0 <= j < out.len() implies lex_lt(lo, out[j].key) by {
            if j == 0 {
            } else {
                assert(out[j] == entries[j - 1]);
            }
        }
    } else if k == entries[0].key {
        assert forall|j: int| 0 <= j < out.len() implies lex_lt(lo, out[j].key) by {
            if j == 0 {
                assert(out[0].key == entries[0].key);
            } else {
                assert(out[j] == entries.drop_first()[j - 1]);
                assert(entries.drop_first()[j - 1] == entries[j]);
            }
        }
    } else {
        let rest = entries.drop_first();
        assert(forall|i: int| 0 <= i < rest.len() ==> lex_lt(lo, #[trigger] rest[i].key)) by {
            assert forall|i: int| 0 <= i < rest.len() implies lex_lt(lo, rest[i].key) by {
                assert(rest[i] == entries[i + 1]);
            }
        }
        lemma_bump_lower(rest, k, b, lo);
        assert forall|j: int| 0 <= j < out.len() implies lex_lt(lo, out[j].key) by {
            if j == 0 {
                assert(out[0] == entries[0]);
            } else {
                assert(out[j] == spec_bump(rest, k, b)[j - 1]);
            }
        }
    }
}

/// Accounting a line keeps the buckets in strictly ascending key order.
pub proof fn lemma_bump_sorted(entries: Seq<EntryV>, k: Seq<char>, b: nat)
    requires
        entries_sorted(entries),
    ensures
        entries_sorted(spec_bump(entries, k, b)),
    decreases entries.len(),
{
    let out = spec_bump(entries, k, b);
    if entries.len() == 0 {
    } else if lex_lt(k, entries[0].key) {
        assert forall|i: int, j: int| 0 <= i < j < out.len() implies lex_lt(
            out[i].key,
            out[j].key,
        ) by {
            assert(out[j] == entries[j - 1]);
            if i == 0 {
                if j > 1 {
                    lemma_lex_lt_transitive(k, entries[0].key, entries[j - 1].key);
                }
            } else {
                assert(out[i] == entries[i - 1]);
            }
        }
    } else if k == entries[0].key {
        assert forall|i: int, j: int| 0 <= i < j < out.len() implies lex_lt(
            out[i].key,
            out[j].key,
        ) by {
            assert(out[j] == entries.drop_first()[j - 1]);
            assert(entries.drop_first()[j - 1] == entries[j]);
            if i == 0 {
                assert(out[0].key == entries[0].key);
            } else {
                assert(out[i] == entries.drop_first()[i - 1]);
                assert(entries.drop_first()[i - 1] == entries[i]);
            }
        }
    } else {
        let rest = entries.drop_first();
        assert(entries_sorted(rest)) by {
            assert forall|i: int, j: int| 0 <= i < j < rest.len() implies lex_lt(
                rest[i].key,
                rest[j].key,
            ) by {
                assert(rest[i] == entries[i + 1]);
                assert(rest[j] == entries[j + 1]);
            }
        }
        lemma_bump_sorted(rest, k, b);
        lemma_lex_lt_trichotomy(k, entries[0].key);
        assert(lex_lt(entries[0].key, k));
        assert(forall|i: int| 0 <= i < rest.len() ==> lex_lt(entries[0].key, #[trigger] rest[i].key))
            by {
            assert forall|i: int| 0 <= i < rest.len() implies lex_lt(entries[0].key, rest[i].key) by {
                assert(rest[i] == entries[i + 1]);
            }
        }
        lemma_bump_lower(rest, k, b, entries[0].key);
        assert forall|i: int, j: int| 0 <= i < j < out.len() implies lex_lt(
            out[i].key,
            out[j].key,
        ) by {
            assert(out[j] == spec_bump(rest, k, b)[j - 1]);
            if i == 0 {
                assert(out[0] == entries[0]);
            } else {
                assert(out[i] == spec_bump(rest, k, b)[i - 1]);
            }
        }
    }
}

/// The valid buckets of an aggregation always come out in strictly
/// ascending key order, so the rendered rows have one fixed order.
pub proof fn lemma_aggregate_sorted(lines: Seq<Seq<char>>)
    ensures
        entries_sorted(spec_aggregate(lines).entries),
    decreases lines.len(),
{
    if lines.len() > 0 {
        lemma_aggregate_sorted(lines.drop_last());
        let l = lines.last();
        if l.len() > 0 {
            match type_key_of(l) {
                Some(k) => {
                    lemma_bump_sorted(spec_aggregate(lines.drop_last()).entries, k, byte_len(l));
                },
                None => {},
            }
        }
    }
}

/// The bucket of key `k` among the valid buckets, if any.
pub open spec fn find_entry(entries: Seq<EntryV>, k: Seq<char>) -> Option<EntryV>
    decreases entries.len(),
{
    if entries.len() == 0 {
        None
    } else if entries[0].key == k {
        Some(entries[0])
    } else {
        find_entry(entries.drop_first(), k)
    }
}

/// How many lines of the input are non-empty and classify to `key`
/// (`None` standing for the invalid bucket).
pub open spec fn matching_count(lines: Seq<Seq<char>>, key: Option<Seq<char>>) -> nat
    decreases lines.len(),
{
    if lines.len() == 0 {
        0
    } else {
        matching_count(lines.drop_last(), key) + if lines.last().len() > 0 && type_key_of(
            lines.last(),
        ) == key {
            1nat
        } else {
            0nat
        }
    }
}

/// The summed byte length of the non-empty lines that classify to `key`.
pub open spec fn matching_bytes(lines: Seq<Seq<char>>, key: Option<Seq<char>>) -> nat
    decreases lines.len(),
{
    if lines.len() == 0 {
        0
    } else {
        matching_bytes(lines.drop_last(), key) + if lines.last().len() > 0 && type_key_of(
            lines.last(),
        ) == key {
            byte_len(lines.last())
        } else {
            0nat
        }
    }
}

/// A key below every stored key is not found.
proof fn lemma_find_absent(entries: Seq<EntryV>, k: Seq<char>)
    requires
        forall|i: int| 0 <= i < entries.len() ==> lex_lt(k, #[trigger] entries[i].key),
    ensures
        find_entry(entries, k) is None,
    decreases entries.len(),
{
    if entries.len() > 0 {
        lemma_lex_lt_asymmetric(k, entries[0].key);
        let rest = entries.drop_first();
        assert forall|i: int| 0 <= i < rest.len() implies lex_lt(k, rest[i].key) by {
            assert(rest[i] == entries[i + 1]);
        }
        lemma_find_absent(rest, k);
    }
}

/// What accounting a line does to each lookup: the bucket of the accounted
/// key gains one line and `b` bytes (appearing with one line if it was
/// missing), and every other lookup is unchanged.
proof fn lemma_bump_find(entries: Seq<EntryV>, k: Seq<char>, b: nat, q: Seq<char>)
    requires
        entries_sorted(entries),
    ensures
        find_entry(spec_bump(entries, k, b), k) == (match find_entry(entries, k) {
            None => Some(EntryV { key: k, count: 1, bytes: b }),
            Some(e) => Some(EntryV { key: e.key, count: e.count + 1, bytes: e.bytes + b }),
        }),
        q != k ==> find_entry(spec_bump(entries, k, b), q) == find_entry(entries, q),
    decreases entries.len(),
{
    let out = spec_bump(entries, k, b);
    let newv = EntryV { key: k, count: 1, bytes: b };
    if entries.len() == 0 {
        assert(seq![newv].drop_first() =~= Seq::<EntryV>::empty());
        assert(out[0] == newv);
        assert(find_entry(Seq::<EntryV>::empty(), q) is None);
        assert(find_entry(Seq::<EntryV>::empty(), k) is None);
    } else if lex_lt(k, entries[0].key) {
        assert(out =~= seq![newv] + entries);
        assert(out[0] == newv);
        assert(out.drop_first() =~= entries);
        assert forall|i: int| 0 <= i < entries.len() implies lex_lt(k, entries[i].key) by {
            if i > 0 {
                lemma_lex_lt_transitive(k, entries[0].key, entries[i].key);
            }
        }
        lemma_find_absent(entries, k);
        lemma_lex_lt_asymmetric(k, entries[0].key);
    } else if k == entries[0].key {
        let bumped = EntryV {
            key: entries[0].key,
            count: entries[0].count + 1,
            bytes: entries[0].bytes + b,
        };
        assert(out[0] == bumped);
        assert(out.drop_first() =~= entries.drop_first());
    } else {
        let rest = entries.drop_first();
        assert(entries_sorted(rest)) by {
            assert forall|i: int, j: int| 0 <= i < j < rest.len() implies lex_lt(
                rest[i].key,
                rest[j].key,
            ) by {
                assert(rest[i] == entries[i + 1]);
                assert(rest[j] == entries[j + 1]);
            }
        }
        lemma_bump_find(rest, k, b, q);
        assert(out[0] == entries[0]);
        assert(out.drop_first() =~= spec_bump(rest, k, b));
    }
}

/// Each valid bucket holds exactly the lines that classify to its key: its
/// count is their number, its byte total their summed length, and a bucket
/// exists exactly when at least one non-empty line classifies to its key.
/// No line is accounted to more than one bucket, since each line has one
/// classification.
pub proof fn lemma_aggregate_bucket_exact(lines: Seq<Seq<char>>, k: Seq<char>)
    ensures
        match find_entry(spec_aggregate(lines).entries, k) {
            Some(e) => e.key == k && e.count == matching_count(lines, Some(k)) && e.bytes
                == matching_bytes(lines, Some(k)),
            None => matching_count(lines, Some(k)) == 0 && matching_bytes(lines, Some(k)) == 0,
        },
        (find_entry(spec_aggregate(lines).entries, k) is Some) <==> matching_count(
            lines,
            Some(k),
        ) > 0,
    decreases lines.len(),
{
    if lines.len() > 0 {
        lemma_aggregate_bucket_exact(lines.drop_last(), k);
        lemma_aggregate_sorted(lines.drop_last());
        let prev = spec_aggregate(lines.drop_last());
        let l = lines.last();
        if l.len() > 0 {
            match type_key_of(l) {
                Some(lk) => {
                    lemma_bump_find(prev.entries, lk, byte_len(l), k);
                },
                None => {},
            }
        }
    }
}

/// The invalid bucket holds exactly the non-empty lines without a
/// classification key: its count is their number, its byte total their
/// summed length, and it exists exactly when at least one such line does.
pub proof fn lemma_aggregate_invalid_exact(lines: Seq<Seq<char>>)
    ensures
        invalid_count(spec_aggregate(lines).invalid) == matching_count(lines, None),
        invalid_bytes(spec_aggregate(lines).invalid) == matching_bytes(lines, None),
        (spec_aggregate(lines).invalid is Some) <==> matching_count(lines, None) > 0,
    decreases lines.len(),
{
    if lines.len() > 0 {
        lemma_aggregate_invalid_exact(lines.drop_last());
    }
}

/// Aggregation is a pure function of its input: any two outcomes of the
/// same line sequence are equal, so running the pass twice over the same
/// text yields identical results.
pub proof fn lemma_aggregate_deterministic(lines: Seq<Seq<char>>, a: AggV, b: AggV)
    requires
        a == spec_aggregate(lines),
        b == spec_aggregate(lines),
    ensures
        a == b,
{
}

} // verus!
