//! Field values: from the raw text of a value, still inside its braces or
//! quotes, to the clean text that a record holds.
//!
//! A raw value is cleaned in four steps. One layer of the outer delimiters is
//! taken off. A backslash before a double quote or before another backslash
//! is dropped, and the character after it stands for itself. Every brace
//! inside the value is removed, so that groups at any depth give way to the
//! text they hold. Every line break becomes one blank, whether it is
//! written as a line feed alone or as a carriage return and a line feed.

use crate::error::{ParseError, ParseFault};
use crate::text::{chars_of, is_brace, is_tight, lemma_trim_of_tight, trim, trim_bounds};
use vstd::prelude::*;

verus! {

/// Whether `raw` stands between `open` and `close`.
pub open spec fn delimited_by(raw: Seq<char>, open: char, close: char) -> bool {
    raw.len() >= 2 && raw[0] == open && raw[raw.len() - 1] == close
}

/// Whether `raw` stands between braces or between double quotes.
pub open spec fn is_delimited(raw: Seq<char>) -> bool {
    delimited_by(raw, '{', '}') || delimited_by(raw, '"', '"')
}

/// Whether the delimiters of `raw` agree: a value that opens with a brace or
/// a double quote must close with its counterpart. A value that opens with
/// neither has no delimiters, and is well delimited.
pub open spec fn well_delimited(raw: Seq<char>) -> bool {
    raw.len() > 0 && (raw[0] == '{' || raw[0] == '"') ==> is_delimited(raw)
}

/// `raw` without its outer delimiters, if it has them.
pub open spec fn strip_delimiters(raw: Seq<char>) -> Seq<char> {
    if is_delimited(raw) {
        raw.subrange(1, raw.len() - 1)
    } else {
        raw
    }
}

/// Whether a backslash at the head of `s` escapes the character after it.
pub open spec fn starts_with_escape(s: Seq<char>) -> bool {
    s.len() >= 2 && s[0] == '\\' && (s[1] == '"' || s[1] == '\\')
}

/// `s` with each escaped double quote and each escaped backslash replaced by
/// the character itself. Pairs are read from left to right.
pub open spec fn unescape(s: Seq<char>) -> Seq<char>
    decreases s.len(),
{
    if s.len() == 0 {
        s
    } else if starts_with_escape(s) {
        seq![s[1]] + unescape(s.skip(2))
    } else {
        seq![s[0]] + unescape(s.skip(1))
    }
}

/// Whether `s` begins with a line break in its long form, a carriage return
/// and a line feed.
pub open spec fn starts_with_crlf(s: Seq<char>) -> bool {
    s.len() >= 2 && s[0] == '\r' && s[1] == '\n'
}

/// `s` with every line break in its short form: without the carriage
/// returns that stand directly before a line feed.
pub open spec fn unix_lines(s: Seq<char>) -> Seq<char>
    decreases s.len(),
{
    if s.len() == 0 {
        s
    } else if starts_with_crlf(s) {
        unix_lines(s.skip(1))
    } else {
        seq![s[0]] + unix_lines(s.skip(1))
    }
}

/// `s` without its braces.
pub open spec fn flatten(s: Seq<char>) -> Seq<char> {
    s.filter(|c: char| !is_brace(c))
}

/// A blank for a line feed, any other character as it is.
pub open spec fn join_char(c: char) -> char {
    if c == '\n' {
        ' '
    } else {
        c
    }
}

/// `s` with a blank in place of each line feed.
pub open spec fn join_lines(s: Seq<char>) -> Seq<char> {
    s.map_values(|c: char| join_char(c))
}

/// The clean text of what stands inside the delimiters of a value.
pub open spec fn clean_body(body: Seq<char>) -> Seq<char> {
    join_lines(flatten(unescape(unix_lines(body))))
}

/// The clean text of a raw value.
pub open spec fn normalized(raw: Seq<char>) -> Seq<char> {
    clean_body(strip_delimiters(raw))
}

/// What cleaning makes of `input`: the clean text of `input` without the
/// blanks around it, or an error where its delimiters do not agree.
pub open spec fn cleaned(input: Seq<char>) -> Result<Seq<char>, ParseFault> {
    if well_delimited(trim(input)) {
        Ok(normalized(trim(input)))
    } else {
        Err(ParseFault::UnbalancedDelimiter)
    }
}

/// A text in short line breaks begins as the text itself does, or with the
/// line feed of a line break that the text begins with.
pub proof fn lemma_unix_lines_head(s: Seq<char>)
    requires
        s.len() > 0,
    ensures
        unix_lines(s).len() > 0,
        unix_lines(s)[0] == s[0] || unix_lines(s)[0] == '\n',
{
    if starts_with_crlf(s) {
        let rest = s.skip(1);
        assert(rest[0] == '\n');
        assert(unix_lines(rest) == seq![rest[0]] + unix_lines(rest.skip(1)));
    }
}

/// How the clean text of `s` begins, and what of `s` the rest of it comes from.
pub proof fn lemma_clean_body_step(s: Seq<char>)
    ensures
        s.len() == 0 ==> clean_body(s) == Seq::<char>::empty(),
        starts_with_crlf(s) ==> clean_body(s) == clean_body(s.skip(1)),
        starts_with_escape(s) ==> clean_body(s) == seq![s[1]] + clean_body(s.skip(2)),
        s.len() > 0 && !starts_with_crlf(s) && !starts_with_escape(s) && is_brace(s[0])
            ==> clean_body(s) == clean_body(s.skip(1)),
        s.len() > 0 && !starts_with_crlf(s) && !starts_with_escape(s) && !is_brace(s[0])
            ==> clean_body(s) == seq![join_char(s[0])] + clean_body(s.skip(1)),
{
    let keep = |c: char| !is_brace(c);
    if s.len() == 0 {
        assert(flatten(s) =~= s);
        assert(join_lines(s) =~= s);
        assert(s =~= Seq::<char>::empty());
    } else if starts_with_crlf(s) {
    } else {
        let lines = unix_lines(s);
        let (head, rest) = if starts_with_escape(s) {
            (s[1], s.skip(2))
        } else {
            (s[0], s.skip(1))
        };
        let one = seq![head];
        if starts_with_escape(s) {
            let after = s.skip(1);
            assert(after[0] == s[1]);
            assert(unix_lines(after) == seq![after[0]] + unix_lines(after.skip(1)));
            assert(after.skip(1) =~= rest);
            assert(lines.skip(2) =~= unix_lines(rest));
            assert(starts_with_escape(lines));
        } else {
            assert(lines.skip(1) =~= unix_lines(rest));
            if rest.len() > 0 {
                lemma_unix_lines_head(rest);
                assert(lines[1] == unix_lines(rest)[0]);
            }
            assert(!starts_with_escape(lines));
        }
        let tail = unescape(unix_lines(rest));
        assert(unescape(lines) == one + tail);
        Seq::<char>::filter_distributes_over_add(one, tail, keep);
        assert(one.drop_last() =~= Seq::<char>::empty());
        reveal(Seq::filter);
        assert(Seq::<char>::empty().filter(keep) =~= Seq::<char>::empty());
        if is_brace(head) {
            assert(one.filter(keep) =~= Seq::<char>::empty());
            assert(flatten(unescape(lines)) =~= flatten(tail));
        } else {
            assert(one.filter(keep) =~= one);
            assert(flatten(unescape(lines)) =~= one + flatten(tail));
            assert(join_lines(one + flatten(tail)) =~= seq![join_char(head)] + join_lines(
                flatten(tail),
            ));
        }
    }
}

/// Cleans the characters at `from..to`, which stand inside the delimiters of
/// a value.
pub fn clean_range(text: &[char], from: usize, to: usize) -> (out: String)
    requires
        from <= to <= text@.len(),
    ensures
        out@ == clean_body(text@.subrange(from as int, to as int)),
{
    let ghost body = text@.subrange(from as int, to as int);
    let mut out = String::new();
    let mut i: usize = from;
    assert(body.skip(0) =~= body);
    while i < to
        invariant
            from <= i <= to <= text@.len(),
            body == text@.subrange(from as int, to as int),
            out@ + clean_body(body.skip(i - from)) == clean_body(body),
        decreases to - i,
    {
        let ghost rest = body.skip(i - from);
        proof {
            lemma_clean_body_step(rest);
            assert(rest.skip(1) =~= body.skip(i + 1 - from));
            if i + 1 < to {
                assert(rest.skip(2) =~= body.skip(i + 2 - from));
            }
        }
        let c = text[i];
        if c == '\r' && i + 1 < to && text[i + 1] == '\n' {
            i += 1;
        } else if c == '\\' && i + 1 < to && (text[i + 1] == '"' || text[i + 1] == '\\') {
            out.push(text[i + 1]);
            i += 2;
        } else if c == '{' || c == '}' {
            i += 1;
        } else if c == '\n' {
            out.push(' ');
            i += 1;
        } else {
            out.push(c);
            i += 1;
        }
        assert(out@ + clean_body(body.skip(i - from)) =~= clean_body(body));
    }
    proof {
        lemma_clean_body_step(body.skip(to - from));
        assert(out@ + Seq::<char>::empty() =~= out@);
    }
    out
}

/// The bounds of what stands inside the delimiters of the raw value at
/// `from..to`: the value without its first and last character where these
/// are a pair of braces or of double quotes, else the whole value.
pub fn strip_bounds(text: &[char], from: usize, to: usize) -> (r: (usize, usize))
    requires
        from <= to <= text@.len(),
    ensures
        from <= r.0 <= r.1 <= to,
        text@.subrange(r.0 as int, r.1 as int) == strip_delimiters(
            text@.subrange(from as int, to as int),
        ),
{
    let ghost raw = text@.subrange(from as int, to as int);
    if to - from >= 2 && ((text[from] == '{' && text[to - 1] == '}') || (text[from] == '"'
        && text[to - 1] == '"')) {
        assert(raw[0] == text@[from as int]);
        assert(raw[raw.len() - 1] == text@[to - 1]);
        assert(text@.subrange(from + 1, to - 1) =~= raw.subrange(1, raw.len() - 1));
        (from + 1, to - 1)
    } else {
        if to - from >= 2 {
            assert(raw[0] == text@[from as int]);
            assert(raw[raw.len() - 1] == text@[to - 1]);
        }
        (from, to)
    }
}

/// Cleans the raw value at `from..to`.
pub fn normalize_range(text: &[char], from: usize, to: usize) -> (out: String)
    requires
        from <= to <= text@.len(),
    ensures
        out@ == normalized(text@.subrange(from as int, to as int)),
{
    let (a, b) = strip_bounds(text, from, to);
    clean_range(text, a, b)
}

/// Whether the delimiters of the raw value at `from..to` agree.
pub fn check_delimiters(text: &[char], from: usize, to: usize) -> (r: bool)
    requires
        from <= to <= text@.len(),
    ensures
        r == well_delimited(text@.subrange(from as int, to as int)),
{
    let ghost raw = text@.subrange(from as int, to as int);
    if from == to {
        return true;
    }
    assert(raw[0] == text@[from as int]);
    assert(raw[raw.len() - 1] == text@[to - 1]);
    let first = text[from];
    let last = text[to - 1];
    if first == '{' {
        to - from >= 2 && last == '}'
    } else if first == '"' {
        to - from >= 2 && last == '"'
    } else {
        true
    }
}

/// Cleans a raw value: takes the blanks around it away, then its outer
/// delimiters, and cleans what stands inside them. A value that opens with a
/// brace or a double quote and does not close with its counterpart is
/// refused.
pub fn clean_string(input: &str) -> (r: Result<String, ParseError>)
    ensures
        match cleaned(input@) {
            Ok(clean) => r is Ok && r->Ok_0@ == clean,
            Err(fault) => r is Err && r->Err_0@ == fault,
        },
{
    let text = chars_of(input);
    let (from, to) = trim_bounds(text.as_slice());
    if check_delimiters(text.as_slice(), from, to) {
        Ok(normalize_range(text.as_slice(), from, to))
    } else {
        Err(ParseError::UnbalancedDelimiter)
    }
}

/// Clean text holds no brace and no line feed.
pub proof fn lemma_clean_body_is_flat(body: Seq<char>)
    ensures
        forall|i: int|
            0 <= i < clean_body(body).len() ==> {
                let c = #[trigger] clean_body(body)[i];
                !is_brace(c) && c != '\n'
            },
{
    let keep = |c: char| !is_brace(c);
    let flat = flatten(unescape(unix_lines(body)));
    assert forall|i: int| 0 <= i < clean_body(body).len() implies {
        let c = #[trigger] clean_body(body)[i];
        !is_brace(c) && c != '\n'
    } by {
        unescape(unix_lines(body)).lemma_filter_pred(keep, i);
        assert(clean_body(body)[i] == join_char(flat[i]));
        assert(keep(flat[i]));
    }
}

/// Of text without backslashes and line feeds, the clean text is the text
/// without its braces: the characters of every group, at whatever depth, in
/// the order in which they were written.
pub proof fn lemma_clean_body_flattens(body: Seq<char>)
    requires
        forall|i: int| 0 <= i < body.len() ==> body[i] != '\\' && body[i] != '\n',
    ensures
        clean_body(body) == flatten(body),
    decreases body.len(),
{
    let keep = |c: char| !is_brace(c);
    lemma_clean_body_step(body);
    if body.len() == 0 {
        assert(flatten(body) =~= body) by {
            reveal(Seq::filter);
        }
    } else {
        let one = seq![body[0]];
        let rest = body.skip(1);
        lemma_clean_body_flattens(rest);
        assert(one + rest =~= body);
        Seq::<char>::filter_distributes_over_add(one, rest, keep);
        assert(one.filter(keep) =~= if is_brace(body[0]) {
            Seq::<char>::empty()
        } else {
            one
        }) by {
            reveal(Seq::filter);
            assert(one.drop_last() =~= Seq::<char>::empty());
            assert(Seq::<char>::empty().filter(keep) =~= Seq::<char>::empty());
        }
        assert(flatten(body) =~= one.filter(keep) + flatten(rest));
    }
}

/// Whether `s` is literal text: it holds none of the characters that
/// cleaning acts on, no backslash, no brace and no line feed.
pub open spec fn is_literal(s: Seq<char>) -> bool {
    forall|i: int| 0 <= i < s.len() ==> s[i] != '\\' && !is_brace(s[i]) && s[i] != '\n'
}

/// Cleaning leaves literal text as it is.
pub proof fn lemma_clean_body_of_literal(body: Seq<char>)
    requires
        is_literal(body),
    ensures
        clean_body(body) == body,
    decreases body.len(),
{
    lemma_clean_body_step(body);
    if body.len() > 0 {
        lemma_clean_body_of_literal(body.skip(1));
        assert(seq![body[0]] + body.skip(1) =~= body);
    }
}

/// Literal text between braces, or between double quotes, cleans to the
/// text itself: the value with its delimiters removed.
pub proof fn lemma_normalized_of_literal(body: Seq<char>)
    requires
        is_literal(body),
    ensures
        normalized(seq!['{'] + body + seq!['}']) == body,
        normalized(seq!['"'] + body + seq!['"']) == body,
{
    lemma_clean_body_of_literal(body);
    let braced = seq!['{'] + body + seq!['}'];
    let quoted = seq!['"'] + body + seq!['"'];
    assert(braced.subrange(1, braced.len() - 1) =~= body);
    assert(quoted.subrange(1, quoted.len() - 1) =~= body);
}

/// Clean text is never longer than the text it comes from.
pub proof fn lemma_clean_body_len(body: Seq<char>)
    ensures
        clean_body(body).len() <= body.len(),
    decreases body.len(),
{
    lemma_clean_body_step(body);
    if starts_with_escape(body) {
        lemma_clean_body_len(body.skip(2));
    } else if body.len() > 0 {
        lemma_clean_body_len(body.skip(1));
    }
}

/// A raw value without blanks around it, and with delimiters that agree, is
/// cleaned without an error.
pub proof fn lemma_cleaned_of_raw_value(raw: Seq<char>)
    requires
        is_tight(raw),
        well_delimited(raw),
    ensures
        cleaned(raw) == Ok::<Seq<char>, ParseFault>(normalized(raw)),
{
    lemma_trim_of_tight(raw);
}

} // verus!
