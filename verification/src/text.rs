//! Character classes, runs of characters, trimming and case folding, and the
//! conversions between strings and character buffers.
//!
//! The parser works on a buffer of characters, so that every position is a
//! character position and every token is a subrange of the buffer.

use vstd::prelude::*;

verus! {

/// Blank characters: they separate tokens and may surround any of them.
pub open spec fn is_space(c: char) -> bool {
    c == ' ' || c == '\t' || c == '\n' || c == '\r'
}

/// Letters, digits and the underscore of ASCII: what an entry keyword is made of.
pub open spec fn is_word_char(c: char) -> bool {
    ('a' <= c && c <= 'z') || ('A' <= c && c <= 'Z') || ('0' <= c && c <= '9') || c == '_'
}

/// An opening or a closing brace.
pub open spec fn is_brace(c: char) -> bool {
    c == '{' || c == '}'
}

/// What a citation key, a field name or an undelimited value is made of:
/// anything but blanks, braces, the double quote, the comma and the equals sign.
pub open spec fn is_atom_char(c: char) -> bool {
    !is_space(c) && !is_brace(c) && c != '"' && c != ',' && c != '='
}

/// The classes of characters that the scanner follows in runs.
#[derive(Clone, Copy, Debug, PartialEq, Eq, Structural)]
pub enum CharClass {
    Space,
    Word,
    Atom,
}

impl CharClass {
    /// Whether `c` belongs to the class.
    pub open spec fn holds(self, c: char) -> bool {
        match self {
            CharClass::Space => is_space(c),
            CharClass::Word => is_word_char(c),
            CharClass::Atom => is_atom_char(c),
        }
    }

    /// Tests whether `c` belongs to the class.
    pub fn test(self, c: char) -> (r: bool)
        ensures
            r == self.holds(c),
    {
        match self {
            CharClass::Space => c == ' ' || c == '\t' || c == '\n' || c == '\r',
            CharClass::Word => ('a' <= c && c <= 'z') || ('A' <= c && c <= 'Z') || ('0' <= c
                && c <= '9') || c == '_',
            CharClass::Atom => !(c == ' ' || c == '\t' || c == '\n' || c == '\r' || c == '{' || c
                == '}' || c == '"' || c == ',' || c == '='),
        }
    }
}

/// The end of the longest run of characters of `class` that starts at `i`:
/// `i` itself where the character at `i` is not of the class, or `i` is no
/// position of `s`.
pub open spec fn run_end(s: Seq<char>, i: int, class: CharClass) -> int
    decreases s.len() - i,
{
    if 0 <= i < s.len() && class.holds(s[i]) {
        run_end(s, i + 1, class)
    } else {
        i
    }
}

/// The first position at or after `i` that holds no blank.
pub open spec fn skip_spaces(s: Seq<char>, i: int) -> int {
    run_end(s, i, CharClass::Space)
}

/// A run ends within the text, every character of it is of the class, and
/// the character after it, if there is one, is not.
pub proof fn lemma_run_end(s: Seq<char>, i: int, class: CharClass)
    requires
        0 <= i <= s.len(),
    ensures
        i <= run_end(s, i, class) <= s.len(),
        forall|k: int| i <= k < run_end(s, i, class) ==> class.holds(#[trigger] s[k]),
        run_end(s, i, class) < s.len() ==> !class.holds(s[run_end(s, i, class)]),
    decreases s.len() - i,
{
    if i < s.len() && class.holds(s[i]) {
        lemma_run_end(s, i + 1, class);
    }
}

/// A run of `n` characters of a class, with no character of the class after
/// it, ends after `n` characters.
pub proof fn lemma_run_over(s: Seq<char>, i: int, class: CharClass, n: int)
    requires
        0 <= i,
        0 <= n,
        i + n <= s.len(),
        forall|k: int| i <= k < i + n ==> class.holds(#[trigger] s[k]),
        i + n < s.len() ==> !class.holds(s[i + n]),
    ensures
        run_end(s, i, class) == i + n,
    decreases n,
{
    if n > 0 {
        assert(class.holds(s[i]));
        lemma_run_over(s, i + 1, class, n - 1);
    }
}

/// Scans the run of characters of `class` that starts at `i`.
pub fn scan_run(text: &[char], i: usize, class: CharClass) -> (r: usize)
    requires
        i <= text@.len(),
    ensures
        r == run_end(text@, i as int, class),
        i <= r <= text@.len(),
{
    let mut j: usize = i;
    while j < text.len() && class.test(text[j])
        invariant
            i <= j <= text@.len(),
            run_end(text@, i as int, class) == run_end(text@, j as int, class),
        decreases text@.len() - j,
    {
        j += 1;
    }
    j
}

/// Where the blanks at the end of `s` begin, looking no further back than `lo`.
pub open spec fn blank_tail(s: Seq<char>, lo: int, hi: int) -> int
    decreases hi - lo,
{
    if lo < hi <= s.len() && is_space(s[hi - 1]) {
        blank_tail(s, lo, hi - 1)
    } else {
        hi
    }
}

/// `s` without the blanks at its two ends.
pub open spec fn trim(s: Seq<char>) -> Seq<char> {
    let from = skip_spaces(s, 0);
    s.subrange(from, blank_tail(s, from, s.len() as int))
}

/// Whether `s` neither begins nor ends with a blank.
pub open spec fn is_tight(s: Seq<char>) -> bool {
    s.len() > 0 ==> !is_space(s[0]) && !is_space(s[s.len() - 1])
}

/// Trimming takes blanks away and nothing else: the text is blanks, then
/// the trimmed text, then blanks, and the trimmed text neither begins nor
/// ends with a blank.
pub proof fn lemma_trim(s: Seq<char>)
    ensures
        is_tight(trim(s)),
        ({
            let from = skip_spaces(s, 0);
            let to = blank_tail(s, from, s.len() as int);
            &&& 0 <= from <= to <= s.len()
            &&& trim(s) == s.subrange(from, to)
            &&& forall|k: int| 0 <= k < from ==> is_space(#[trigger] s[k])
            &&& forall|k: int| to <= k < s.len() ==> is_space(#[trigger] s[k])
        }),
{
    let from = skip_spaces(s, 0);
    lemma_run_end(s, 0, CharClass::Space);
    lemma_blank_tail(s, from, s.len() as int);
}

/// The blanks at the end of `s[lo..hi]` reach from `blank_tail(s, lo, hi)`
/// to `hi`, and the character before them, if there is one after `lo`, is no
/// blank.
pub proof fn lemma_blank_tail(s: Seq<char>, lo: int, hi: int)
    requires
        0 <= lo <= hi <= s.len(),
    ensures
        lo <= blank_tail(s, lo, hi) <= hi,
        forall|k: int| blank_tail(s, lo, hi) <= k < hi ==> is_space(#[trigger] s[k]),
        lo < blank_tail(s, lo, hi) ==> !is_space(s[blank_tail(s, lo, hi) - 1]),
    decreases hi - lo,
{
    if lo < hi && is_space(s[hi - 1]) {
        lemma_blank_tail(s, lo, hi - 1);
    }
}

/// Trimming leaves a text that neither begins nor ends with a blank as it
/// is.
pub proof fn lemma_trim_of_tight(s: Seq<char>)
    requires
        is_tight(s),
    ensures
        trim(s) == s,
{
    if s.len() > 0 {
        assert(skip_spaces(s, 0) == 0);
        assert(blank_tail(s, 0, s.len() as int) == s.len());
        assert(s.subrange(0, s.len() as int) =~= s);
    } else {
        assert(s.subrange(0, 0) =~= s);
    }
}

/// The bounds of the text without the blanks at its two ends.
pub fn trim_bounds(text: &[char]) -> (r: (usize, usize))
    ensures
        r.0 <= r.1 <= text@.len(),
        r.0 == skip_spaces(text@, 0),
        r.1 == blank_tail(text@, r.0 as int, text@.len() as int),
        text@.subrange(r.0 as int, r.1 as int) == trim(text@),
{
    let from = scan_run(text, 0, CharClass::Space);
    let mut to: usize = text.len();
    while from < to && CharClass::Space.test(text[to - 1])
        invariant
            from <= to <= text@.len(),
            blank_tail(text@, from as int, text@.len() as int) == blank_tail(
                text@,
                from as int,
                to as int,
            ),
        decreases to - from,
    {
        to -= 1;
    }
    (from, to)
}

/// The upper-case form of an ASCII letter; any other character is itself.
pub open spec fn ascii_upper(c: char) -> char {
    if 'a' <= c && c <= 'z' {
        ((c as u8) - 32) as char
    } else {
        c
    }
}

/// `s` with its ASCII letters in upper case.
pub open spec fn upper(s: Seq<char>) -> Seq<char> {
    s.map_values(|c: char| ascii_upper(c))
}

/// Whether two words are the same but for the case of their ASCII letters.
pub open spec fn same_word(a: Seq<char>, b: Seq<char>) -> bool {
    upper(a) == upper(b)
}

/// Folds an ASCII letter to upper case.
pub fn to_upper(c: char) -> (r: char)
    ensures
        r == ascii_upper(c),
{
    if 'a' <= c && c <= 'z' {
        ((c as u8) - 32) as char
    } else {
        c
    }
}

/// Compares the word at `from..to` with `word`, ignoring the case of ASCII letters.
pub fn word_matches(text: &[char], from: usize, to: usize, word: &str) -> (r: bool)
    requires
        from <= to <= text@.len(),
    ensures
        r == same_word(text@.subrange(from as int, to as int), word@),
{
    let ghost a = text@.subrange(from as int, to as int);
    let n = word.unicode_len();
    if to - from != n {
        assert(upper(a).len() != upper(word@).len());
        return false;
    }
    let mut i: usize = 0;
    while i < n
        invariant
            i <= n,
            n == word@.len(),
            from + n == to,
            to <= text@.len(),
            a == text@.subrange(from as int, to as int),
            forall|k: int| 0 <= k < i ==> ascii_upper(a[k]) == ascii_upper(word@[k]),
        decreases n - i,
    {
        if to_upper(text[from + i]) != to_upper(word.get_char(i)) {
            assert(upper(a)[i as int] != upper(word@)[i as int]);
            return false;
        }
        i += 1;
    }
    assert(upper(a) =~= upper(word@));
    true
}

/// Taken on trust, not proved: `String::push` of the standard library
/// appends the character at the end of the string and leaves what the
/// string held before it as it was.
pub assume_specification[ String::push ](s: &mut String, c: char)
    ensures
        final(s)@ == old(s)@.push(c),
;

/// The characters of a string, in a buffer.
pub fn chars_of(s: &str) -> (out: Vec<char>)
    ensures
        out@ == s@,
{
    let mut out: Vec<char> = Vec::new();
    for c in it: s.chars()
        invariant
            out@ == it.seq().take(it.index()),
    {
        out.push(c);
    }
    out
}

/// The characters at `from..to`, as a string.
pub fn string_of(text: &[char], from: usize, to: usize) -> (out: String)
    requires
        from <= to <= text@.len(),
    ensures
        out@ == text@.subrange(from as int, to as int),
{
    let mut out = String::new();
    let mut i: usize = from;
    while i < to
        invariant
            from <= i <= to <= text@.len(),
            out@ == text@.subrange(from as int, i as int),
        decreases to - i,
    {
        out.push(text[i]);
        i += 1;
    }
    out
}

} // verus!
