//! Documents: a text with any number of entries, split into the entries and
//! parsed one entry at a time.
//!
//! An entry begins at an `@` that stands outside all braces, and reaches up
//! to the next such `@` or to the end of the text. What stands before the
//! first entry belongs to none. Each entry is parsed by itself, so that a
//! fault in one entry is the outcome of that entry and of no other.

use crate::error::{ParseError, ParseFault};
use crate::model::bibliography::{parse_chars, parse_entry, Bibliography, Record};
use crate::text::chars_of;
use crate::tokenizer::{brace_level, Span};
use vstd::prelude::*;
use vstd::slice::slice_subrange;

verus! {

/// The number of braces that are open before position `i`. A closing brace
/// with no brace open closes nothing.
pub open spec fn depth_at(s: Seq<char>, i: int) -> nat
    decreases i,
{
    if i <= 0 || i > s.len() {
        0
    } else {
        let before = depth_at(s, i - 1);
        if s[i - 1] == '{' {
            before + 1
        } else if s[i - 1] == '}' && before > 0 {
            (before - 1) as nat
        } else {
            before
        }
    }
}

/// Whether an entry begins at position `i`: an `@` outside all braces.
pub open spec fn is_entry_start(s: Seq<char>, i: int) -> bool {
    0 <= i < s.len() && s[i] == '@' && depth_at(s, i) == 0
}

/// The positions before `n` at which an entry begins, in rising order.
pub open spec fn entry_starts(s: Seq<char>, n: int) -> Seq<int>
    decreases n,
{
    if n <= 0 {
        Seq::empty()
    } else if is_entry_start(s, n - 1) {
        entry_starts(s, n - 1).push(n - 1)
    } else {
        entry_starts(s, n - 1)
    }
}

/// Where the entry that begins at `starts[k]` ends: where the next entry
/// begins, or at the end of the text.
pub open spec fn entry_stop(s: Seq<char>, starts: Seq<int>, k: int) -> int {
    if k + 1 < starts.len() {
        starts[k + 1]
    } else {
        s.len() as int
    }
}

/// The entries of a document, each as its text, in the order of the
/// document.
pub open spec fn entry_spans(s: Seq<char>) -> Seq<Seq<char>> {
    let starts = entry_starts(s, s.len() as int);
    Seq::new(starts.len(), |k: int| s.subrange(starts[k], entry_stop(s, starts, k)))
}

/// What parsing makes of a document: the outcome of each of its entries, in
/// the order of the document.
pub open spec fn parse_all(s: Seq<char>) -> Seq<Result<Record, ParseFault>> {
    entry_spans(s).map_values(|entry: Seq<char>| parse_entry(entry))
}

/// An outcome as a mathematical value.
pub open spec fn outcome_view(outcome: Result<Bibliography, ParseError>) -> Result<
    Record,
    ParseFault,
> {
    match outcome {
        Ok(record) => Ok(record@),
        Err(fault) => Err(fault@),
    }
}

/// Up to a position before which no closing brace lacks its opening brace,
/// the number of open braces is the opening braces less the closing ones.
pub proof fn lemma_depth_is_level(s: Seq<char>, i: int)
    requires
        0 <= i <= s.len(),
        forall|n: int| 0 <= n <= i ==> brace_level(s, n) >= 0,
    ensures
        depth_at(s, i) == brace_level(s, i),
    decreases i,
{
    if i > 0 {
        lemma_depth_is_level(s, i - 1);
        assert(brace_level(s, i - 1) >= 0);
        assert(brace_level(s, i) >= 0);
    }
}

/// The entry starts before `n` are positions before `n`, they rise, and an
/// entry begins at each of them; and every position before `n` at which an
/// entry begins is among them.
pub proof fn lemma_entry_starts(s: Seq<char>, n: int)
    requires
        0 <= n <= s.len(),
    ensures
        forall|k: int|
            0 <= k < entry_starts(s, n).len() ==> 0 <= (#[trigger] entry_starts(s, n)[k]) < n
                && is_entry_start(s, entry_starts(s, n)[k]),
        forall|j: int, k: int|
            0 <= j < k < entry_starts(s, n).len() ==> entry_starts(s, n)[j] < entry_starts(
                s,
                n,
            )[k],
        forall|i: int|
            0 <= i < n && is_entry_start(s, i) ==> entry_starts(s, n).contains(i),
    decreases n,
{
    if n > 0 {
        lemma_entry_starts(s, n - 1);
        let earlier = entry_starts(s, n - 1);
        let now = entry_starts(s, n);
        assert forall|i: int| 0 <= i < n && is_entry_start(s, i) implies now.contains(i) by {
            if i < n - 1 {
                let k = choose|k: int| 0 <= k < earlier.len() && earlier[k] == i;
                assert(now[k] == i);
            } else {
                assert(now[now.len() - 1] == i);
            }
        }
    }
}

/// What holds of the entry at place `k` of a document: it begins at an `@`
/// outside all braces, no entry begins inside it, and it ends where the next
/// entry begins or where the document ends. Before the first entry no entry
/// begins.
pub proof fn lemma_entry_span(s: Seq<char>, k: int)
    requires
        0 <= k < entry_starts(s, s.len() as int).len(),
    ensures
        ({
            let starts = entry_starts(s, s.len() as int);
            let stop = entry_stop(s, starts, k);
            &&& is_entry_start(s, starts[k])
            &&& starts[k] < stop <= s.len()
            &&& entry_spans(s)[k] == s.subrange(starts[k], stop)
            &&& entry_spans(s)[k][0] == '@'
            &&& forall|p: int| starts[k] < p < stop ==> !is_entry_start(s, p)
            &&& stop < s.len() ==> is_entry_start(s, stop)
            &&& k == 0 ==> forall|p: int| 0 <= p < starts[k] ==> !is_entry_start(s, p)
        }),
{
    let starts = entry_starts(s, s.len() as int);
    let stop = entry_stop(s, starts, k);
    lemma_entry_starts(s, s.len() as int);
    assert forall|p: int| 0 <= p < s.len() && is_entry_start(s, p) implies !(starts[k] < p < stop)
        && (k == 0 ==> p >= starts[k]) by {
        let j = choose|j: int| 0 <= j < starts.len() && starts[j] == p;
        if j < k {
            assert(starts[j] < starts[k]);
        } else if j > k + 1 {
            assert(starts[k + 1] < starts[j]);
        }
    }
}

/// The number of open braces within the first of two texts is the same in
/// the two texts joined.
proof fn lemma_depth_in_first(a: Seq<char>, b: Seq<char>, i: int)
    requires
        0 <= i <= a.len(),
    ensures
        depth_at(a + b, i) == depth_at(a, i),
    decreases i,
{
    if i > 0 {
        lemma_depth_in_first(a, b, i - 1);
        assert((a + b)[i - 1] == a[i - 1]);
    }
}

/// After a text that leaves no brace open, the number of open braces is
/// that of the text that follows.
proof fn lemma_depth_in_second(a: Seq<char>, b: Seq<char>, i: int)
    requires
        depth_at(a, a.len() as int) == 0,
        0 <= i <= b.len(),
    ensures
        depth_at(a + b, a.len() + i) == depth_at(b, i),
    decreases i,
{
    if i > 0 {
        lemma_depth_in_second(a, b, i - 1);
        assert((a + b)[a.len() + i - 1] == b[i - 1]);
    } else {
        lemma_depth_in_first(a, b, a.len() as int);
    }
}

/// The entries that begin within the first of two texts.
proof fn lemma_starts_in_first(a: Seq<char>, b: Seq<char>, n: int)
    requires
        0 <= n <= a.len(),
    ensures
        entry_starts(a + b, n) == entry_starts(a, n),
    decreases n,
{
    if n > 0 {
        lemma_starts_in_first(a, b, n - 1);
        lemma_depth_in_first(a, b, n - 1);
        assert((a + b)[n - 1] == a[n - 1]);
    }
}

/// `starts`, each moved on by `by`.
pub open spec fn moved(starts: Seq<int>, by: int) -> Seq<int> {
    starts.map_values(|start: int| start + by)
}

/// The entries that begin in the two texts joined, where the first leaves
/// no brace open.
proof fn lemma_starts_in_second(a: Seq<char>, b: Seq<char>, n: int)
    requires
        depth_at(a, a.len() as int) == 0,
        0 <= n <= b.len(),
    ensures
        entry_starts(a + b, a.len() + n) == entry_starts(a, a.len() as int) + moved(
            entry_starts(b, n),
            a.len() as int,
        ),
    decreases n,
{
    let first = entry_starts(a, a.len() as int);
    if n > 0 {
        lemma_starts_in_second(a, b, n - 1);
        lemma_depth_in_second(a, b, n - 1);
        assert((a + b)[a.len() + n - 1] == b[n - 1]);
        let earlier = entry_starts(b, n - 1);
        if is_entry_start(b, n - 1) {
            assert(first + moved(earlier.push(n - 1), a.len() as int) =~= (first + moved(
                earlier,
                a.len() as int,
            )).push(a.len() + n - 1));
        }
    } else {
        lemma_starts_in_first(a, b, a.len() as int);
        assert(first + moved(entry_starts(b, 0), a.len() as int) =~= first);
    }
}

/// The entries of two documents joined are the entries of the first and
/// then the entries of the second, where the first leaves no brace open and
/// the second begins with an entry. So are the outcomes: what one document
/// holds, faults included, changes nothing in the outcomes of the other.
pub proof fn lemma_parse_all_joined(a: Seq<char>, b: Seq<char>)
    requires
        depth_at(a, a.len() as int) == 0,
        b.len() > 0 ==> b[0] == '@',
    ensures
        entry_spans(a + b) == entry_spans(a) + entry_spans(b),
        parse_all(a + b) == parse_all(a) + parse_all(b),
{
    let s = a + b;
    let first = entry_starts(a, a.len() as int);
    let second = entry_starts(b, b.len() as int);
    let both = entry_starts(s, s.len() as int);
    lemma_starts_in_second(a, b, b.len() as int);
    lemma_entry_starts(a, a.len() as int);
    lemma_entry_starts(b, b.len() as int);
    assert(both == first + moved(second, a.len() as int));
    if b.len() > 0 {
        assert(is_entry_start(b, 0));
        let k = choose|k: int| 0 <= k < second.len() && second[k] == 0;
        if k > 0 {
            assert(second[0] < second[k]);
        }
        assert(second[0] == 0);
    } else {
        assert(s =~= a);
    }
    assert forall|k: int| 0 <= k < both.len() implies #[trigger] entry_spans(s)[k] == (
    entry_spans(a) + entry_spans(b))[k] by {
        if k < first.len() {
            assert(both[k] == first[k]);
            assert(entry_stop(s, both, k) == entry_stop(a, first, k)) by {
                if k + 1 < first.len() {
                    assert(both[k + 1] == first[k + 1]);
                } else if b.len() > 0 {
                    assert(both[k + 1] == second[0] + a.len());
                }
            }
            assert(s.subrange(first[k], entry_stop(a, first, k)) =~= a.subrange(
                first[k],
                entry_stop(a, first, k),
            ));
        } else {
            let j = k - first.len();
            assert(both[k] == second[j] + a.len());
            assert(entry_stop(s, both, k) == entry_stop(b, second, j) + a.len()) by {
                if j + 1 < second.len() {
                    assert(both[k + 1] == second[j + 1] + a.len());
                }
            }
            assert(s.subrange(second[j] + a.len(), entry_stop(b, second, j) + a.len())
                =~= b.subrange(second[j], entry_stop(b, second, j)));
        }
    }
    assert(entry_spans(s) =~= entry_spans(a) + entry_spans(b));
    assert(parse_all(s) =~= parse_all(a) + parse_all(b));
}

/// A text that begins with an `@` and holds no other `@` outside braces
/// is one entry: the whole of it.
pub proof fn lemma_single_entry(s: Seq<char>)
    requires
        s.len() > 0,
        s[0] == '@',
        forall|i: int| 0 < i < s.len() ==> !is_entry_start(s, i),
    ensures
        entry_spans(s) == seq![s],
        parse_all(s) == seq![parse_entry(s)],
{
    lemma_entry_starts(s, s.len() as int);
    let starts = entry_starts(s, s.len() as int);
    assert(is_entry_start(s, 0));
    assert(starts.contains(0));
    assert(starts.len() > 0);
    assert(starts[0] == 0) by {
        if starts[0] != 0 {
            assert(is_entry_start(s, starts[0]));
        }
    }
    if starts.len() > 1 {
        assert(starts[0] < starts[1]);
        assert(is_entry_start(s, starts[1]));
    }
    assert(s.subrange(0, s.len() as int) =~= s);
    assert(entry_spans(s) =~= seq![s]);
    assert(parse_all(s) =~= seq![parse_entry(s)]);
}

/// A text without an `@` outside braces has no entries, so parsing it
/// gives no outcome.
pub proof fn lemma_no_entries(s: Seq<char>)
    requires
        forall|i: int| 0 <= i < s.len() ==> !is_entry_start(s, i),
    ensures
        parse_all(s).len() == 0,
{
    lemma_entry_starts(s, s.len() as int);
    let starts = entry_starts(s, s.len() as int);
    if starts.len() > 0 {
        assert(is_entry_start(s, starts[0]));
    }
}

/// Splits a document into its entries.
pub fn split_entries(text: &[char]) -> (out: Vec<Span>)
    ensures
        out@.len() == entry_starts(text@, text@.len() as int).len(),
        forall|k: int|
            0 <= k < out@.len() ==> {
                let starts = entry_starts(text@, text@.len() as int);
                &&& (#[trigger] out@[k]).from == starts[k]
                &&& out@[k].to == entry_stop(text@, starts, k)
                &&& out@[k].within(text@)
            },
{
    let ghost s = text@;
    let mut out: Vec<Span> = Vec::new();
    let mut open: Option<usize> = None;
    let mut depth: usize = 0;
    let mut i: usize = 0;
    while i < text.len()
        invariant
            s == text@,
            i <= s.len(),
            depth == depth_at(s, i as int),
            depth <= i,
            match open {
                None => entry_starts(s, i as int).len() == 0 && out@.len() == 0,
                Some(from) => {
                    let starts = entry_starts(s, i as int);
                    &&& starts.len() == out@.len() + 1
                    &&& starts[starts.len() - 1] == from
                    &&& from < i
                },
            },
            forall|k: int|
                0 <= k < out@.len() ==> {
                    let starts = entry_starts(s, i as int);
                    &&& (#[trigger] out@[k]).from == starts[k]
                    &&& out@[k].to == starts[k + 1]
                    &&& out@[k].from <= out@[k].to <= i
                },
        decreases s.len() - i,
    {
        let c = text[i];
        if c == '@' && depth == 0 {
            if let Some(from) = open {
                out.push(Span { from, to: i });
            }
            open = Some(i);
        } else if c == '{' {
            depth += 1;
        } else if c == '}' && depth > 0 {
            depth -= 1;
        }
        i += 1;
    }
    if let Some(from) = open {
        out.push(Span { from, to: i });
    }
    out
}

/// Parses a document: splits it into its entries and parses each. The
/// outcomes stand in the order of the entries, one for each entry, and the
/// outcome of an entry is what parsing that entry alone gives.
pub fn parse_document(full_text: &str) -> (out: Vec<Result<Bibliography, ParseError>>)
    ensures
        out@.len() == parse_all(full_text@).len(),
        forall|k: int|
            0 <= k < out@.len() ==> outcome_view(#[trigger] out@[k]) == parse_all(full_text@)[k],
{
    let text = chars_of(full_text);
    let spans = split_entries(text.as_slice());
    let mut out: Vec<Result<Bibliography, ParseError>> = Vec::new();
    let mut k: usize = 0;
    while k < spans.len()
        invariant
            text@ == full_text@,
            k <= spans@.len(),
            out@.len() == k,
            spans@.len() == entry_starts(text@, text@.len() as int).len(),
            forall|j: int|
                0 <= j < spans@.len() ==> {
                    let starts = entry_starts(text@, text@.len() as int);
                    &&& (#[trigger] spans@[j]).from == starts[j]
                    &&& spans@[j].to == entry_stop(text@, starts, j)
                    &&& spans@[j].within(text@)
                },
            forall|j: int|
                0 <= j < k ==> outcome_view(#[trigger] out@[j]) == parse_all(full_text@)[j],
        decreases spans@.len() - k,
    {
        let span = spans[k];
        assert(span.within(text@));
        let entry = slice_subrange(text.as_slice(), span.from, span.to);
        assert(entry@ == entry_spans(text@)[k as int]);
        out.push(parse_chars(entry));
        k += 1;
    }
    out
}

/// Finds where the entries of a document stand: for each entry, in the
/// order of the document, the character positions at which it begins and
/// ends. The outcome at place `k` of `parse_document` is the outcome of the
/// entry at place `k` here, so that a fault can be traced to its entry.
pub fn locate_entries(full_text: &str) -> (out: Vec<Span>)
    ensures
        out@.len() == entry_spans(full_text@).len(),
        forall|k: int|
            0 <= k < out@.len() ==> (#[trigger] out@[k]).within(full_text@) && out@[k].of(
                full_text@,
            ) == entry_spans(full_text@)[k],
{
    let text = chars_of(full_text);
    split_entries(text.as_slice())
}

/// Parses one entry: its text gives its record, or the first fault in it.
pub fn parse_one(entry_text: &str) -> (r: Result<Bibliography, ParseError>)
    ensures
        outcome_view(r) == parse_entry(entry_text@),
{
    Bibliography::from_raw(entry_text)
}

} // verus!
