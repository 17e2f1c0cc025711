//! The scanner: from the text of one entry to its keyword and its fields.
//!
//! An entry reads
//!
//! ```text
//! @keyword{ citation-key, name = value, name = value, ... }
//! ```
//!
//! Blanks may stand around every token, and the `@` may be missing. The
//! keyword is a run of letters, digits and underscores. The body is a list of
//! parts between commas; empty parts are passed over. The first part may be a
//! citation key, which is a single token; every other part is a field, a name
//! and a value with `=` between them. A value is a group in braces, a text in
//! double quotes, or a single token. A group ends at the brace that matches
//! its opening brace. A quoted text ends at the first double quote that is
//! neither escaped by a backslash nor inside braces. So a comma, a line break
//! or an `@` inside a delimited value belongs to the value. What follows the
//! closing brace of the body is not read.

use crate::error::{ParseError, ParseFault};
use crate::model::field::{texts, FieldText};
use crate::text::{
    chars_of, is_atom_char, is_tight, lemma_run_end, run_end, scan_run, skip_spaces, string_of,
    CharClass,
};
use crate::value::{is_delimited, starts_with_escape, well_delimited};
use vstd::prelude::*;

verus! {

/// Where the keyword of an entry begins: after blanks, or after blanks, an
/// `@` and more blanks.
pub open spec fn keyword_start(s: Seq<char>) -> int {
    let a = skip_spaces(s, 0);
    if a < s.len() && s[a] == '@' {
        skip_spaces(s, a + 1)
    } else {
        a
    }
}

/// Where the keyword of an entry ends.
pub open spec fn keyword_end(s: Seq<char>) -> int {
    run_end(s, keyword_start(s), CharClass::Word)
}

/// The keyword of an entry, if it has one.
pub open spec fn keyword_of(s: Seq<char>) -> Option<Seq<char>> {
    if keyword_start(s) < keyword_end(s) {
        Some(s.subrange(keyword_start(s), keyword_end(s)))
    } else {
        None
    }
}

/// The position after the brace that closes a group. `i` is a position
/// inside the group, and `depth` counts the braces that are open there, the
/// one of the group itself included.
pub open spec fn group_end(s: Seq<char>, i: int, depth: nat) -> Option<int>
    decreases s.len() - i,
{
    if i < 0 || i >= s.len() {
        None
    } else if s[i] == '{' {
        group_end(s, i + 1, depth + 1)
    } else if s[i] == '}' {
        if depth <= 1 {
            Some(i + 1)
        } else {
            group_end(s, i + 1, (depth - 1) as nat)
        }
    } else {
        group_end(s, i + 1, depth)
    }
}

/// The position after the double quote that closes a quoted text. `i` is a
/// position inside the text, and `depth` counts the braces that are open
/// there. A closing brace that matches no brace of the text ends the scan
/// without a result.
pub open spec fn quote_end(s: Seq<char>, i: int, depth: nat) -> Option<int>
    decreases s.len() - i,
{
    if i < 0 || i >= s.len() {
        None
    } else if starts_with_escape(s.skip(i)) {
        quote_end(s, i + 2, depth)
    } else if s[i] == '{' {
        quote_end(s, i + 1, depth + 1)
    } else if s[i] == '}' {
        if depth == 0 {
            None
        } else {
            quote_end(s, i + 1, (depth - 1) as nat)
        }
    } else if s[i] == '"' && depth == 0 {
        Some(i + 1)
    } else {
        quote_end(s, i + 1, depth)
    }
}

/// Where the value that begins at `v` ends.
pub open spec fn value_end(s: Seq<char>, v: int) -> Result<int, ParseFault> {
    if v < 0 || v >= s.len() {
        Err(ParseFault::UnbalancedDelimiter)
    } else if s[v] == '{' {
        match group_end(s, v + 1, 1) {
            Some(end) => Ok(end),
            None => Err(ParseFault::UnbalancedDelimiter),
        }
    } else if s[v] == '"' {
        match quote_end(s, v + 1, 0) {
            Some(end) => Ok(end),
            None => Err(ParseFault::UnbalancedDelimiter),
        }
    } else if run_end(s, v, CharClass::Atom) > v {
        Ok(run_end(s, v, CharClass::Atom))
    } else {
        Err(ParseFault::MalformedFieldLine)
    }
}

/// A group ends after a closing brace, beyond the position the scan began at.
pub proof fn lemma_group_end(s: Seq<char>, i: int, depth: nat)
    requires
        group_end(s, i, depth) is Some,
    ensures
        0 <= i < group_end(s, i, depth)->0 <= s.len(),
        s[group_end(s, i, depth)->0 - 1] == '}',
    decreases s.len() - i,
{
    if s[i] == '{' {
        lemma_group_end(s, i + 1, depth + 1);
    } else if s[i] == '}' {
        if depth > 1 {
            lemma_group_end(s, i + 1, (depth - 1) as nat);
        }
    } else {
        lemma_group_end(s, i + 1, depth);
    }
}

/// A quoted text ends after a double quote, beyond the position the scan
/// began at.
pub proof fn lemma_quote_end(s: Seq<char>, i: int, depth: nat)
    requires
        quote_end(s, i, depth) is Some,
    ensures
        0 <= i < quote_end(s, i, depth)->0 <= s.len(),
        s[quote_end(s, i, depth)->0 - 1] == '"',
    decreases s.len() - i,
{
    if starts_with_escape(s.skip(i)) {
        lemma_quote_end(s, i + 2, depth);
    } else if s[i] == '{' {
        lemma_quote_end(s, i + 1, depth + 1);
    } else if s[i] == '}' {
        lemma_quote_end(s, i + 1, (depth - 1) as nat);
    } else if s[i] == '"' && depth == 0 {
    } else {
        lemma_quote_end(s, i + 1, depth);
    }
}

/// Whether `t` is a token: one character or more, none of them a blank, a
/// brace, a double quote, a comma or an equals sign.
pub open spec fn is_token(t: Seq<char>) -> bool {
    t.len() > 0 && forall|k: int| 0 <= k < t.len() ==> is_atom_char(#[trigger] t[k])
}

/// Whether `raw` has the form of a raw value: a text between braces or
/// between double quotes, or a token.
pub open spec fn is_raw_value(raw: Seq<char>) -> bool {
    is_delimited(raw) || is_token(raw)
}

/// A value is not empty and lies within the text. It is a text between
/// braces where it opens with a brace, a text between double quotes where it
/// opens with a double quote, and a token else.
pub proof fn lemma_value_end(s: Seq<char>, v: int)
    requires
        value_end(s, v) is Ok,
    ensures
        0 <= v < value_end(s, v)->Ok_0 <= s.len(),
        is_raw_value(s.subrange(v, value_end(s, v)->Ok_0)),
        well_delimited(s.subrange(v, value_end(s, v)->Ok_0)),
        is_tight(s.subrange(v, value_end(s, v)->Ok_0)),
{
    let w = value_end(s, v)->Ok_0;
    let raw = s.subrange(v, w);
    if s[v] == '{' {
        lemma_group_end(s, v + 1, 1);
    } else if s[v] == '"' {
        lemma_quote_end(s, v + 1, 0);
    } else {
        lemma_run_end(s, v, CharClass::Atom);
        assert forall|k: int| 0 <= k < raw.len() implies is_atom_char(#[trigger] raw[k]) by {
            assert(raw[k] == s[v + k]);
        }
    }
    assert(raw[0] == s[v]);
    assert(raw[raw.len() - 1] == s[w - 1]);
}

/// What a character adds to the number of open braces.
pub open spec fn brace_step(c: char) -> int {
    if c == '{' {
        1
    } else if c == '}' {
        -1
    } else {
        0
    }
}

/// The opening braces less the closing braces among the first `n`
/// characters of `s`.
pub open spec fn brace_level(s: Seq<char>, n: int) -> int
    decreases n,
{
    if n <= 0 || n > s.len() {
        0
    } else {
        brace_level(s, n - 1) + brace_step(s[n - 1])
    }
}

/// Whether the braces of `s` match: every closing brace closes a brace that
/// was opened before it, and no brace stays open.
pub open spec fn is_balanced(s: Seq<char>) -> bool {
    brace_level(s, s.len() as int) == 0 && forall|n: int|
        0 <= n <= s.len() ==> brace_level(s, n) >= 0
}

/// The level within two texts joined: that of the first text within the
/// first, and beyond it the level of the whole first text and that of the
/// second.
pub proof fn lemma_brace_level_joined(a: Seq<char>, b: Seq<char>, n: int)
    requires
        0 <= n <= a.len() + b.len(),
    ensures
        n <= a.len() ==> brace_level(a + b, n) == brace_level(a, n),
        n >= a.len() ==> brace_level(a + b, n) == brace_level(a, a.len() as int) + brace_level(
            b,
            n - a.len(),
        ),
    decreases n,
{
    if n > 0 {
        lemma_brace_level_joined(a, b, n - 1);
        if n <= a.len() {
            assert((a + b)[n - 1] == a[n - 1]);
        } else {
            assert((a + b)[n - 1] == b[n - 1 - a.len()]);
        }
    }
    if n == a.len() {
        assert(brace_level(b, 0) == 0);
    }
}

/// Two texts whose braces match, joined, are a text whose braces match.
pub proof fn lemma_balanced_joined(a: Seq<char>, b: Seq<char>)
    requires
        is_balanced(a),
        is_balanced(b),
    ensures
        is_balanced(a + b),
{
    assert forall|n: int| 0 <= n <= (a + b).len() implies brace_level(a + b, n) >= 0 by {
        lemma_brace_level_joined(a, b, n);
    }
    lemma_brace_level_joined(a, b, (a + b).len() as int);
}

/// In a text without braces the level is zero throughout.
pub proof fn lemma_level_without_braces(s: Seq<char>, n: int)
    requires
        forall|k: int| 0 <= k < s.len() ==> brace_step(#[trigger] s[k]) == 0,
        0 <= n <= s.len(),
    ensures
        brace_level(s, n) == 0,
    decreases n,
{
    if n > 0 {
        lemma_level_without_braces(s, n - 1);
    }
}

/// The braces of a text without braces match.
pub proof fn lemma_balanced_without_braces(s: Seq<char>)
    requires
        forall|k: int| 0 <= k < s.len() ==> brace_step(#[trigger] s[k]) == 0,
    ensures
        is_balanced(s),
{
    assert forall|n: int| 0 <= n <= s.len() implies brace_level(s, n) >= 0 by {
        lemma_level_without_braces(s, n);
    }
    lemma_level_without_braces(s, s.len() as int);
}

/// The braces of a group match where the braces of the text in it do, and
/// inside the group a brace is open throughout.
pub proof fn lemma_balanced_group(text: Seq<char>)
    requires
        is_balanced(text),
    ensures
        is_balanced(seq!['{'] + text + seq!['}']),
        forall|n: int|
            1 <= n <= text.len() + 1 ==> brace_level(seq!['{'] + text + seq!['}'], n) >= 1,
{
    let open = seq!['{'];
    let close = seq!['}'];
    let group = open + text + close;
    assert(brace_level(open, 1) == 1) by {
        assert(brace_level(open, 0) == 0);
    }
    assert forall|n: int| 0 <= n <= group.len() implies brace_level(group, n) >= 0 && (1 <= n
        <= text.len() + 1 ==> brace_level(group, n) >= 1) && (n == group.len() ==> brace_level(
        group,
        n,
    ) == 0) by {
        lemma_brace_level_joined(open + text, close, n);
        if n <= text.len() + 1 {
            lemma_brace_level_joined(open, text, n);
            if n == 0 {
                assert(brace_level(open, 0) == 0);
            }
        } else {
            lemma_brace_level_joined(open, text, (text.len() + 1) as int);
            assert(brace_level(close, 1) == -1) by {
                assert(brace_level(close, 0) == 0);
            }
        }
    }
}

/// Scanning a group passes over text whose closing braces all close braces
/// of that text.
proof fn lemma_group_scan(s: Seq<char>, i: int, depth: nat, body: Seq<char>, k: int)
    requires
        0 <= i,
        i + body.len() <= s.len(),
        s.subrange(i, i + body.len()) == body,
        0 <= k <= body.len(),
        depth >= 1,
        forall|n: int| 0 <= n <= body.len() ==> depth + brace_level(body, n) >= 1,
    ensures
        group_end(s, i, depth) == group_end(s, i + k, (depth + brace_level(body, k)) as nat),
    decreases k,
{
    if k > 0 {
        lemma_group_scan(s, i, depth, body, k - 1);
        assert(body[k - 1] == s[i + k - 1]);
        assert(depth + brace_level(body, k - 1) >= 1);
        assert(depth + brace_level(body, k) >= 1);
    }
}

/// A group ends at the brace that matches its opening brace, whatever
/// stands between the two: a comma, a double quote, a line break or an `@`
/// inside the group does not end it.
pub proof fn lemma_group_of_balanced(s: Seq<char>, v: int, body: Seq<char>)
    requires
        0 <= v,
        v + body.len() + 2 <= s.len(),
        s[v] == '{',
        s.subrange(v + 1, v + 1 + body.len()) == body,
        s[v + 1 + body.len()] == '}',
        is_balanced(body),
    ensures
        value_end(s, v) == Ok::<int, ParseFault>(v + body.len() + 2),
{
    lemma_group_scan(s, v + 1, 1, body, body.len() as int);
}

/// The level of a text after `n` characters is the step of its first
/// character and the level of the rest after `n - 1`.
proof fn lemma_brace_level_skip(s: Seq<char>, n: int)
    requires
        1 <= n <= s.len(),
    ensures
        brace_level(s, n) == brace_step(s[0]) + brace_level(s.skip(1), n - 1),
    decreases n,
{
    if n > 1 {
        lemma_brace_level_skip(s, n - 1);
        assert(s.skip(1)[n - 2] == s[n - 1]);
    } else {
        assert(brace_level(s, 0) == 0);
        assert(brace_level(s.skip(1), 0) == 0);
    }
}

/// What a group scan has passed over when it ends: text whose closing
/// braces all close braces of that text, and that leaves `depth - 1` braces
/// less open than `depth`.
proof fn lemma_group_levels(s: Seq<char>, i: int, depth: nat)
    requires
        depth >= 1,
        group_end(s, i, depth) is Some,
    ensures
        ({
            let end = group_end(s, i, depth)->0;
            let body = s.subrange(i, end - 1);
            &&& i < end <= s.len()
            &&& depth + brace_level(body, body.len() as int) == 1
            &&& forall|n: int| 0 <= n <= body.len() ==> depth + brace_level(body, n) >= 1
        }),
    decreases s.len() - i,
{
    lemma_group_end(s, i, depth);
    let end = group_end(s, i, depth)->0;
    let body = s.subrange(i, end - 1);
    if s[i] == '}' && depth <= 1 {
    } else {
        let next: nat = if s[i] == '{' {
            depth + 1
        } else if s[i] == '}' {
            (depth - 1) as nat
        } else {
            depth
        };
        lemma_group_levels(s, i + 1, next);
        let rest = s.subrange(i + 1, end - 1);
        assert(body.skip(1) =~= rest);
        assert(body[0] == s[i]);
        assert forall|n: int| 0 <= n <= body.len() implies depth + brace_level(body, n)
            >= 1 by {
            if n >= 1 {
                lemma_brace_level_skip(body, n);
                assert(next + brace_level(rest, n - 1) >= 1);
            }
        }
        lemma_brace_level_skip(body, body.len() as int);
    }
}

/// What stands between the braces of a group has braces that match: the
/// group ends at no earlier and no later brace than the one that matches its
/// opening brace.
pub proof fn lemma_group_is_balanced(s: Seq<char>, v: int)
    requires
        0 <= v < s.len(),
        s[v] == '{',
        value_end(s, v) is Ok,
    ensures
        v + 2 <= value_end(s, v)->Ok_0 <= s.len(),
        s[value_end(s, v)->Ok_0 - 1] == '}',
        is_balanced(s.subrange(v + 1, value_end(s, v)->Ok_0 - 1)),
{
    lemma_group_levels(s, v + 1, 1);
    lemma_group_end(s, v + 1, 1);
}

/// Scanning a quoted text passes over text without backslashes whose
/// closing braces all close braces of that text, and whose double quotes
/// all stand inside braces.
proof fn lemma_quote_scan(s: Seq<char>, i: int, body: Seq<char>, k: int)
    requires
        0 <= i,
        i + body.len() < s.len(),
        s.subrange(i, i + body.len()) == body,
        0 <= k <= body.len(),
        forall|n: int| 0 <= n <= body.len() ==> brace_level(body, n) >= 0,
        forall|n: int| 0 <= n < body.len() ==> body[n] != '\\',
        forall|n: int| 0 <= n < body.len() && body[n] == '"' ==> brace_level(body, n) > 0,
    ensures
        quote_end(s, i, 0) == quote_end(s, i + k, brace_level(body, k) as nat),
    decreases k,
{
    if k > 0 {
        lemma_quote_scan(s, i, body, k - 1);
        assert(body[k - 1] == s[i + k - 1]);
        assert(s.skip(i + k - 1)[0] == s[i + k - 1]);
        assert(brace_level(body, k - 1) >= 0);
        assert(brace_level(body, k) >= 0);
    }
}

/// A quoted text ends at the first double quote outside braces, whatever
/// stands before it: a comma, a line break, an `@` or a group in braces does
/// not end it. This is stated of text without backslashes.
pub proof fn lemma_quoted_of_balanced(s: Seq<char>, v: int, body: Seq<char>)
    requires
        0 <= v,
        v + body.len() + 2 <= s.len(),
        s[v] == '"',
        s.subrange(v + 1, v + 1 + body.len()) == body,
        s[v + 1 + body.len()] == '"',
        is_balanced(body),
        forall|n: int| 0 <= n < body.len() ==> body[n] != '\\',
        forall|n: int| 0 <= n < body.len() && body[n] == '"' ==> brace_level(body, n) > 0,
    ensures
        value_end(s, v) == Ok::<int, ParseFault>(v + body.len() + 2),
{
    lemma_quote_scan(s, v + 1, body, body.len() as int);
    let end = v + 1 + body.len();
    assert(s.skip(end)[0] == s[end]);
}

/// Scans a group in braces from `i`, the position after its opening brace.
pub fn scan_group(text: &[char], i: usize) -> (r: Option<usize>)
    requires
        0 < i <= text@.len(),
    ensures
        r is Some <==> group_end(text@, i as int, 1) is Some,
        r is Some ==> r->0 == group_end(text@, i as int, 1)->0 && i < r->0 <= text@.len(),
{
    let mut j: usize = i;
    let mut depth: usize = 1;
    while j < text.len()
        invariant
            0 < i <= j <= text@.len(),
            1 <= depth <= j - i + 1,
            group_end(text@, i as int, 1) == group_end(text@, j as int, depth as nat),
        decreases text@.len() - j,
    {
        let c = text[j];
        if c == '{' {
            depth += 1;
        } else if c == '}' {
            if depth == 1 {
                return Some(j + 1);
            }
            depth -= 1;
        }
        j += 1;
    }
    None
}

/// Scans a text in double quotes from `i`, the position after its opening
/// quote.
pub fn scan_quote(text: &[char], i: usize) -> (r: Option<usize>)
    requires
        i <= text@.len(),
    ensures
        r is Some <==> quote_end(text@, i as int, 0) is Some,
        r is Some ==> r->0 == quote_end(text@, i as int, 0)->0 && i < r->0 <= text@.len(),
{
    let mut j: usize = i;
    let mut depth: usize = 0;
    while j < text.len()
        invariant
            i <= j <= text@.len(),
            depth <= j - i,
            quote_end(text@, i as int, 0) == quote_end(text@, j as int, depth as nat),
        decreases text@.len() - j,
    {
        let c = text[j];
        proof {
            let rest = text@.skip(j as int);
            assert(rest[0] == text@[j as int]);
            if j + 1 < text@.len() {
                assert(rest[1] == text@[j + 1]);
            }
        }
        if c == '\\' && j + 1 < text.len() && (text[j + 1] == '"' || text[j + 1] == '\\') {
            j += 2;
        } else if c == '{' {
            depth += 1;
            j += 1;
        } else if c == '}' {
            if depth == 0 {
                return None;
            }
            depth -= 1;
            j += 1;
        } else if c == '"' && depth == 0 {
            return Some(j + 1);
        } else {
            j += 1;
        }
    }
    None
}

/// Scans the value that begins at `v`.
pub fn scan_value(text: &[char], v: usize) -> (r: Result<usize, ParseError>)
    requires
        v <= text@.len(),
    ensures
        match value_end(text@, v as int) {
            Ok(end) => r == Ok::<usize, ParseError>(end as usize) && v < end <= text@.len(),
            Err(fault) => r is Err && r->Err_0@ == fault,
        },
{
    if v >= text.len() {
        return Err(ParseError::UnbalancedDelimiter);
    }
    let c = text[v];
    if c == '{' {
        match scan_group(text, v + 1) {
            Some(end) => Ok(end),
            None => Err(ParseError::UnbalancedDelimiter),
        }
    } else if c == '"' {
        match scan_quote(text, v + 1) {
            Some(end) => Ok(end),
            None => Err(ParseError::UnbalancedDelimiter),
        }
    } else {
        let end = scan_run(text, v, CharClass::Atom);
        if end > v {
            Ok(end)
        } else {
            Err(ParseError::MalformedFieldLine)
        }
    }
}

/// `found` before the fields of `rest`, or the error of `rest`.
pub open spec fn before(
    found: Seq<(Seq<char>, Seq<char>)>,
    rest: Result<Seq<(Seq<char>, Seq<char>)>, ParseFault>,
) -> Result<Seq<(Seq<char>, Seq<char>)>, ParseFault> {
    match rest {
        Ok(fields) => Ok(found + fields),
        Err(fault) => Err(fault),
    }
}

/// The fields of an entry body from `i` on, each as its name and its raw
/// value, in the order of the text. `first` says that no part of the body
/// has been read yet, so that the next token may be the citation key. The
/// first fault met in the text is the error.
pub open spec fn fields_from(s: Seq<char>, i: int, first: bool) -> Result<
    Seq<(Seq<char>, Seq<char>)>,
    ParseFault,
>
    decreases s.len() - i,
{
    let j = skip_spaces(s, i);
    let n = run_end(s, j, CharClass::Atom);
    let e = skip_spaces(s, n);
    if i < 0 || j >= s.len() {
        Err(ParseFault::UnbalancedDelimiter)
    } else if s[j] == '}' {
        Ok(Seq::empty())
    } else if s[j] == ',' {
        proof {
            lemma_run_end(s, i, CharClass::Space);
        }
        fields_from(s, j + 1, false)
    } else if n == j {
        Err(ParseFault::MalformedFieldLine)
    } else if e >= s.len() {
        Err(ParseFault::UnbalancedDelimiter)
    } else if s[e] == '=' {
        let v = skip_spaces(s, e + 1);
        match value_end(s, v) {
            Err(fault) => Err(fault),
            Ok(w) => {
                let t = skip_spaces(s, w);
                let field = (s.subrange(j, n), s.subrange(v, w));
                if t >= s.len() {
                    Err(ParseFault::UnbalancedDelimiter)
                } else if s[t] == '}' {
                    Ok(seq![field])
                } else if s[t] == ',' {
                    proof {
                        lemma_field_bounds(s, i);
                    }
                    before(seq![field], fields_from(s, t + 1, false))
                } else {
                    Err(ParseFault::MalformedFieldLine)
                }
            },
        }
    } else if first && s[e] == '}' {
        Ok(Seq::empty())
    } else if first && s[e] == ',' {
        proof {
            lemma_field_bounds(s, i);
        }
        fields_from(s, e + 1, false)
    } else {
        Err(ParseFault::MalformedFieldLine)
    }
}

/// The positions that reading one part of a body passes through follow one
/// another in the text.
pub proof fn lemma_field_bounds(s: Seq<char>, i: int)
    requires
        0 <= i <= s.len(),
    ensures
        ({
            let j = skip_spaces(s, i);
            let n = run_end(s, j, CharClass::Atom);
            let e = skip_spaces(s, n);
            let v = skip_spaces(s, e + 1);
            &&& i <= j <= n <= e <= s.len()
            &&& e < s.len() ==> e < v <= s.len()
            &&& e < s.len() && value_end(s, v) is Ok ==> {
                let w = value_end(s, v)->Ok_0;
                v < w <= skip_spaces(s, w) <= s.len()
            }
        }),
{
    let j = skip_spaces(s, i);
    lemma_run_end(s, i, CharClass::Space);
    let n = run_end(s, j, CharClass::Atom);
    lemma_run_end(s, j, CharClass::Atom);
    let e = skip_spaces(s, n);
    lemma_run_end(s, n, CharClass::Space);
    if e < s.len() {
        let v = skip_spaces(s, e + 1);
        lemma_run_end(s, e + 1, CharClass::Space);
        if value_end(s, v) is Ok {
            lemma_value_end(s, v);
            lemma_run_end(s, value_end(s, v)->Ok_0, CharClass::Space);
        }
    }
}

/// Whether `field` has the form of a field as the scanner finds it: its
/// name is a token and its value a raw value.
pub open spec fn is_raw_field(field: (Seq<char>, Seq<char>)) -> bool {
    is_token(field.0) && is_raw_value(field.1) && well_delimited(field.1) && is_tight(field.1)
}

/// Every field that the scanner finds has a token for its name and a raw
/// value for its value.
pub proof fn lemma_fields_from(s: Seq<char>, i: int, first: bool)
    requires
        fields_from(s, i, first) is Ok,
    ensures
        forall|k: int|
            0 <= k < fields_from(s, i, first)->Ok_0.len() ==> is_raw_field(
                #[trigger] fields_from(s, i, first)->Ok_0[k],
            ),
    decreases s.len() - i,
{
    let j = skip_spaces(s, i);
    let n = run_end(s, j, CharClass::Atom);
    let e = skip_spaces(s, n);
    lemma_field_bounds(s, i);
    if s[j] == '}' {
    } else if s[j] == ',' {
        lemma_fields_from(s, j + 1, false);
    } else if s[e] == '=' {
        let v = skip_spaces(s, e + 1);
        let w = value_end(s, v)->Ok_0;
        let t = skip_spaces(s, w);
        let field = (s.subrange(j, n), s.subrange(v, w));
        lemma_value_end(s, v);
        lemma_run_end(s, j, CharClass::Atom);
        assert forall|k: int| 0 <= k < field.0.len() implies is_atom_char(
            #[trigger] field.0[k],
        ) by {
            assert(field.0[k] == s[j + k]);
        }
        assert(is_raw_field(field));
        if s[t] == ',' {
            lemma_fields_from(s, t + 1, false);
            let rest = fields_from(s, t + 1, false)->Ok_0;
            let all = fields_from(s, i, first)->Ok_0;
            assert forall|k: int| 0 <= k < all.len() implies is_raw_field(#[trigger] all[k]) by {
                if k > 0 {
                    assert(all[k] == rest[k - 1]);
                }
            }
        }
    } else if s[e] == ',' {
        lemma_fields_from(s, e + 1, false);
    }
}

/// The fields of the body that follows the keyword, which ends at `i`: the
/// body opens with a brace.
pub open spec fn body_fields(s: Seq<char>, i: int) -> Result<
    Seq<(Seq<char>, Seq<char>)>,
    ParseFault,
> {
    let open = skip_spaces(s, i);
    if 0 <= open < s.len() && s[open] == '{' {
        fields_from(s, open + 1, true)
    } else {
        Err(ParseFault::MalformedFieldLine)
    }
}

/// The keyword and the fields of an entry.
pub open spec fn tokens(s: Seq<char>) -> Result<
    (Seq<char>, Seq<(Seq<char>, Seq<char>)>),
    ParseFault,
> {
    match keyword_of(s) {
        None => Err(ParseFault::MissingEntryType),
        Some(keyword) => match body_fields(s, keyword_end(s)) {
            Ok(fields) => Ok((keyword, fields)),
            Err(fault) => Err(fault),
        },
    }
}

/// A stretch of the text, from one position up to another.
#[derive(Clone, Copy, Debug, PartialEq, Eq, Structural)]
pub struct Span {
    pub from: usize,
    pub to: usize,
}

impl Span {
    /// Whether the span lies within `s`.
    pub open spec fn within(self, s: Seq<char>) -> bool {
        self.from <= self.to <= s.len()
    }

    /// The characters of `s` that the span covers.
    pub open spec fn of(self, s: Seq<char>) -> Seq<char> {
        s.subrange(self.from as int, self.to as int)
    }
}

/// Where the name and the raw value of a field stand in the text.
#[derive(Clone, Copy, Debug, PartialEq, Eq, Structural)]
pub struct FieldSpan {
    pub name: Span,
    pub value: Span,
}

impl FieldSpan {
    /// Whether both spans lie within `s`.
    pub open spec fn within(self, s: Seq<char>) -> bool {
        self.name.within(s) && self.value.within(s)
    }

    /// The name and the raw value that the spans cover.
    pub open spec fn of(self, s: Seq<char>) -> (Seq<char>, Seq<char>) {
        (self.name.of(s), self.value.of(s))
    }
}

/// Whether all of `spans` lie within `s`.
pub open spec fn all_within(spans: Seq<FieldSpan>, s: Seq<char>) -> bool {
    forall|k: int| 0 <= k < spans.len() ==> (#[trigger] spans[k]).within(s)
}

/// The names and raw values that `spans` cover.
pub open spec fn cuts(spans: Seq<FieldSpan>, s: Seq<char>) -> Seq<(Seq<char>, Seq<char>)> {
    spans.map_values(|f: FieldSpan| f.of(s))
}

/// Scans the fields of an entry body from `start`, the position after its
/// opening brace.
pub fn scan_fields(text: &[char], start: usize) -> (r: Result<Vec<FieldSpan>, ParseError>)
    requires
        start <= text@.len(),
    ensures
        match fields_from(text@, start as int, true) {
            Ok(fields) => r is Ok && all_within(r->Ok_0@, text@) && cuts(r->Ok_0@, text@)
                == fields,
            Err(fault) => r is Err && r->Err_0@ == fault,
        },
{
    let ghost s = text@;
    let mut out: Vec<FieldSpan> = Vec::new();
    let mut i: usize = start;
    let mut first = true;
    assert(cuts(out@, s) =~= Seq::empty());
    assert(before(Seq::empty(), fields_from(s, i as int, first)) == fields_from(s, i as int, first))
        by {
        if let Ok(fields) = fields_from(s, i as int, first) {
            assert(Seq::<(Seq<char>, Seq<char>)>::empty() + fields =~= fields);
        }
    }
    loop
        invariant
            s == text@,
            i <= s.len(),
            all_within(out@, s),
            fields_from(s, start as int, true) == before(
                cuts(out@, s),
                fields_from(s, i as int, first),
            ),
        decreases s.len() - i,
    {
        proof {
            lemma_field_bounds(s, i as int);
        }
        let ghost found = cuts(out@, s);
        let j = scan_run(text, i, CharClass::Space);
        if j >= text.len() {
            return Err(ParseError::UnbalancedDelimiter);
        }
        if text[j] == '}' {
            assert(found + Seq::empty() =~= found);
            return Ok(out);
        }
        if text[j] == ',' {
            i = j + 1;
            first = false;
        } else {
            let n = scan_run(text, j, CharClass::Atom);
            if n == j {
                return Err(ParseError::MalformedFieldLine);
            }
            let e = scan_run(text, n, CharClass::Space);
            if e >= text.len() {
                return Err(ParseError::UnbalancedDelimiter);
            }
            if text[e] == '=' {
                let v = scan_run(text, e + 1, CharClass::Space);
                let w = match scan_value(text, v) {
                    Ok(w) => w,
                    Err(fault) => {
                        return Err(fault);
                    },
                };
                let t = scan_run(text, w, CharClass::Space);
                if t >= text.len() {
                    return Err(ParseError::UnbalancedDelimiter);
                }
                let field = FieldSpan { name: Span { from: j, to: n }, value: Span { from: v, to: w } };
                if text[t] == '}' {
                    out.push(field);
                    assert(cuts(out@, s) =~= found + seq![field.of(s)]);
                    return Ok(out);
                } else if text[t] == ',' {
                    out.push(field);
                    proof {
                        assert(cuts(out@, s) =~= found + seq![field.of(s)]);
                        if let Ok(rest) = fields_from(s, t + 1, false) {
                            assert(found + (seq![field.of(s)] + rest) =~= (found + seq![
                                field.of(s),
                            ]) + rest);
                        }
                    }
                    i = t + 1;
                    first = false;
                } else {
                    return Err(ParseError::MalformedFieldLine);
                }
            } else if first && text[e] == '}' {
                assert(found + Seq::empty() =~= found);
                return Ok(out);
            } else if first && text[e] == ',' {
                i = e + 1;
                first = false;
            } else {
                return Err(ParseError::MalformedFieldLine);
            }
        }
    }
}

/// Scans the keyword of an entry.
pub fn scan_keyword(text: &[char]) -> (r: Option<Span>)
    ensures
        match keyword_of(text@) {
            Some(keyword) => r is Some && r->0.within(text@) && r->0.of(text@) == keyword
                && r->0.to == keyword_end(text@),
            None => r is None,
        },
{
    let a = scan_run(text, 0, CharClass::Space);
    let from = if a < text.len() && text[a] == '@' {
        scan_run(text, a + 1, CharClass::Space)
    } else {
        a
    };
    let to = scan_run(text, from, CharClass::Word);
    if from < to {
        Some(Span { from, to })
    } else {
        None
    }
}

/// Scans the body of an entry, which follows the keyword that ends at `i`.
pub fn scan_body(text: &[char], i: usize) -> (r: Result<Vec<FieldSpan>, ParseError>)
    requires
        i <= text@.len(),
    ensures
        match body_fields(text@, i as int) {
            Ok(fields) => r is Ok && all_within(r->Ok_0@, text@) && cuts(r->Ok_0@, text@)
                == fields,
            Err(fault) => r is Err && r->Err_0@ == fault,
        },
{
    let open = scan_run(text, i, CharClass::Space);
    if open < text.len() && text[open] == '{' {
        scan_fields(text, open + 1)
    } else {
        Err(ParseError::MalformedFieldLine)
    }
}

/// What the scanner finds in an entry: its keyword as it was written, and
/// its fields with their raw values, in the order of the text.
#[derive(Debug, PartialEq, Eq)]
pub struct RawEntry {
    pub keyword: String,
    pub fields: Vec<FieldText>,
}

impl View for RawEntry {
    type V = (Seq<char>, Seq<(Seq<char>, Seq<char>)>);

    open spec fn view(&self) -> (Seq<char>, Seq<(Seq<char>, Seq<char>)>) {
        (self.keyword@, texts(self.fields@))
    }
}

/// Copies out the names and raw values that `spans` mark in `text`.
pub fn cut_all(text: &[char], spans: &Vec<FieldSpan>) -> (out: Vec<FieldText>)
    requires
        all_within(spans@, text@),
    ensures
        texts(out@) == cuts(spans@, text@),
{
    let mut out: Vec<FieldText> = Vec::new();
    let mut k: usize = 0;
    while k < spans.len()
        invariant
            k <= spans@.len(),
            all_within(spans@, text@),
            out@.len() == k,
            forall|j: int| 0 <= j < k ==> (#[trigger] out@[j])@ == cuts(spans@, text@)[j],
        decreases spans@.len() - k,
    {
        let span = spans[k];
        assert(span.within(text@));
        let name = string_of(text, span.name.from, span.name.to);
        let value = string_of(text, span.value.from, span.value.to);
        out.push(FieldText { name, value });
        k += 1;
    }
    assert(texts(out@) =~= cuts(spans@, text@));
    out
}

/// Scans one entry: gives its keyword and its fields, each field as its
/// name and its raw value, or the first fault in the text.
pub fn tokenize(input: &str) -> (r: Result<RawEntry, ParseError>)
    ensures
        match tokens(input@) {
            Ok(found) => r is Ok && r->Ok_0@ == found,
            Err(fault) => r is Err && r->Err_0@ == fault,
        },
{
    let chars = chars_of(input);
    let text = chars.as_slice();
    let keyword = match scan_keyword(text) {
        Some(keyword) => keyword,
        None => {
            return Err(ParseError::MissingEntryType);
        },
    };
    let spans = match scan_body(text, keyword.to) {
        Ok(spans) => spans,
        Err(fault) => {
            return Err(fault);
        },
    };
    Ok(RawEntry { keyword: string_of(text, keyword.from, keyword.to), fields: cut_all(text, &spans) })
}

} // verus!
