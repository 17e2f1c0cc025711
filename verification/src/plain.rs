//! Entries in plain form, and the law that parsing reads them back.
//!
//! An entry in plain form reads
//!
//! ```text
//! @keyword{key, name = {text}, name = "text"}
//! ```
//!
//! with a keyword of letters, digits and underscores, a key and names that
//! are tokens, and texts whose braces match, each between braces or between
//! double quotes. A text between double quotes holds no backslash, and no
//! double quote outside braces. Whatever the texts hold besides: commas, line
//! breaks, `@`, nested groups; the scanner finds the keyword and every field
//! with its text, and the record holds the clean text of each known field.

use crate::document::{
    depth_at, is_entry_start, lemma_depth_is_level, lemma_parse_all_joined, lemma_single_entry,
    parse_all,
};
use crate::error::ParseFault;
use crate::model::bibliography::{
    clean_fields, lemma_record_fields, names, names_last, parse_entry, record_of, Record,
};
use crate::model::entry_type::entry_type_of;
use crate::model::field::Field;
use crate::text::{is_space, is_word_char, lemma_run_over, run_end, skip_spaces, CharClass};
use crate::tokenizer::{
    body_fields, brace_level, brace_step, fields_from, is_balanced, is_token, keyword_end,
    keyword_of, keyword_start, lemma_balanced_group, lemma_balanced_joined,
    lemma_balanced_without_braces, lemma_brace_level_joined, lemma_group_of_balanced,
    lemma_level_without_braces, lemma_quoted_of_balanced, tokens, value_end,
};
use crate::value::{clean_body, is_literal, lemma_clean_body_of_literal, normalized};
use vstd::prelude::*;

verus! {

/// Whether `t` is a word: one character or more, each a letter, a digit or
/// an underscore.
pub open spec fn is_word(t: Seq<char>) -> bool {
    t.len() > 0 && forall|k: int| 0 <= k < t.len() ==> is_word_char(#[trigger] t[k])
}

/// A field to be written in plain form: its name, its text, and whether the
/// text is to stand between double quotes rather than between braces.
pub struct PlainField {
    pub name: Seq<char>,
    pub text: Seq<char>,
    pub quoted: bool,
}

/// Whether `text` can stand between double quotes: it holds no backslash,
/// and no double quote outside braces.
pub open spec fn fits_in_quotes(text: Seq<char>) -> bool {
    forall|n: int|
        0 <= n < text.len() ==> text[n] != '\\' && (text[n] == '"' ==> brace_level(text, n) > 0)
}

/// Whether `field` can be written in plain form: its name is a token, the
/// braces of its text match, and its text can stand between double quotes if
/// it is to stand there.
pub open spec fn is_plain_field(field: PlainField) -> bool {
    is_token(field.name) && is_balanced(field.text) && (field.quoted ==> fits_in_quotes(
        field.text,
    ))
}

/// Whether every field of `fields` can be written in plain form.
pub open spec fn are_plain_fields(fields: Seq<PlainField>) -> bool {
    forall|k: int| 0 <= k < fields.len() ==> is_plain_field(#[trigger] fields[k])
}

/// The text of a field between its delimiters.
pub open spec fn delimited(field: PlainField) -> Seq<char> {
    if field.quoted {
        seq!['"'] + field.text + seq!['"']
    } else {
        seq!['{'] + field.text + seq!['}']
    }
}

/// A field in plain form: a blank, the name, ` = ` and the text between
/// its delimiters.
pub open spec fn plain_field(field: PlainField) -> Seq<char> {
    seq![' '] + field.name + seq![' ', '=', ' '] + delimited(field)
}

/// What follows the key of an entry in plain form: each field after a
/// comma, and the closing brace.
pub open spec fn plain_tail(fields: Seq<PlainField>) -> Seq<char>
    decreases fields.len(),
{
    if fields.len() == 0 {
        seq!['}']
    } else {
        seq![','] + plain_field(fields[0]) + plain_tail(fields.skip(1))
    }
}

/// An entry in plain form.
pub open spec fn plain_entry(keyword: Seq<char>, key: Seq<char>, fields: Seq<PlainField>) -> Seq<
    char,
> {
    seq!['@'] + keyword + seq!['{'] + key + plain_tail(fields)
}

/// The fields of an entry in plain form as the scanner is to find them: each
/// name with its text between its delimiters.
pub open spec fn raw_fields(fields: Seq<PlainField>) -> Seq<(Seq<char>, Seq<char>)> {
    fields.map_values(|f: PlainField| (f.name, delimited(f)))
}

/// The fields of an entry in plain form as a record is built from them:
/// each name with its text cleaned.
pub open spec fn clean_texts(fields: Seq<PlainField>) -> Seq<(Seq<char>, Seq<char>)> {
    fields.map_values(|f: PlainField| (f.name, clean_body(f.text)))
}

/// How the text after the key is laid out, where there is a field: a
/// comma, a blank, the name, ` = `, the text between its delimiters, and what
/// follows the rest of the fields, which begins with a comma or, after the
/// last field, is the closing brace.
proof fn lemma_plain_tail_layout(fields: Seq<PlainField>)
    requires
        fields.len() > 0,
    ensures
        ({
            let tail = plain_tail(fields);
            let n = fields[0].name.len() as int;
            let m = fields[0].text.len() as int;
            let after = plain_tail(fields.skip(1));
            &&& tail.len() == 7 + n + m + after.len()
            &&& tail[0] == ','
            &&& tail[1] == ' '
            &&& tail.subrange(2, 2 + n) == fields[0].name
            &&& tail[2 + n] == ' '
            &&& tail[3 + n] == '='
            &&& tail[4 + n] == ' '
            &&& tail.subrange(5 + n, 7 + n + m) == delimited(fields[0])
            &&& tail.subrange(6 + n, 6 + n + m) == fields[0].text
            &&& tail.subrange(7 + n + m, tail.len() as int) == after
            &&& after.len() >= 1
            &&& fields.len() == 1 ==> after == seq!['}']
            &&& fields.len() > 1 ==> after[0] == ','
        }),
{
    let tail = plain_tail(fields);
    let name = fields[0].name;
    let text = fields[0].text;
    let rest = fields.skip(1);
    let n = name.len() as int;
    let m = text.len() as int;
    let after = plain_tail(rest);
    assert(tail == seq![','] + plain_field(fields[0]) + after);
    if rest.len() > 0 {
        assert(after == seq![','] + plain_field(rest[0]) + plain_tail(rest.skip(1)));
    }
    assert(delimited(fields[0]).len() == m + 2);
    assert(tail.subrange(2, 2 + n) =~= name);
    assert(tail.subrange(5 + n, 7 + n + m) =~= delimited(fields[0]));
    assert(tail.subrange(6 + n, 6 + n + m) =~= text) by {
        assert forall|k: int| 0 <= k < m implies tail.subrange(6 + n, 6 + n + m)[k]
            == text[k] by {
            assert(tail[6 + n + k] == delimited(fields[0])[1 + k]);
        }
    }
    assert(tail.subrange(7 + n + m, tail.len() as int) =~= after);
}

/// Where the parts of the first field of a plain tail stand in a text that
/// holds the tail from `p` on.
proof fn lemma_plain_field_stands(s: Seq<char>, p: int, fields: Seq<PlainField>)
    requires
        0 <= p,
        p + plain_tail(fields).len() <= s.len(),
        s.subrange(p, p + plain_tail(fields).len()) == plain_tail(fields),
        fields.len() > 0,
    ensures
        ({
            let n = fields[0].name.len() as int;
            let m = fields[0].text.len() as int;
            let after = plain_tail(fields.skip(1));
            let v = p + 5 + n;
            let w = p + 7 + n + m;
            &&& s[p + 1] == ' '
            &&& s.subrange(p + 2, p + 2 + n) == fields[0].name
            &&& s[p + 2 + n] == ' '
            &&& s[p + 3 + n] == '='
            &&& s[p + 4 + n] == ' '
            &&& s.subrange(v, w) == delimited(fields[0])
            &&& s.subrange(v + 1, v + 1 + m) == fields[0].text
            &&& after.len() >= 1
            &&& w + after.len() <= s.len()
            &&& s.subrange(w, w + after.len()) == after
        }),
{
    let tail = plain_tail(fields);
    let n = fields[0].name.len() as int;
    let m = fields[0].text.len() as int;
    let after = plain_tail(fields.skip(1));
    let v = p + 5 + n;
    let w = p + 7 + n + m;
    lemma_plain_tail_layout(fields);
    assert forall|k: int| 0 <= k < tail.len() implies s[p + k] == #[trigger] tail[k] by {
        assert(s.subrange(p, p + tail.len())[k] == s[p + k]);
    }
    assert(s[p + 1] == tail[1]);
    assert(s[p + 2 + n] == tail[2 + n]);
    assert(s[p + 3 + n] == tail[3 + n]);
    assert(s[p + 4 + n] == tail[4 + n]);
    assert(s.subrange(p + 2, p + 2 + n) =~= tail.subrange(2, 2 + n)) by {
        assert forall|k: int| 0 <= k < n implies #[trigger] s.subrange(p + 2, p + 2 + n)[k]
            == tail.subrange(2, 2 + n)[k] by {
            assert(s[p + (2 + k)] == tail[2 + k]);
        }
    }
    assert(s.subrange(v, w) =~= tail.subrange(5 + n, 7 + n + m)) by {
        assert forall|k: int| 0 <= k < m + 2 implies #[trigger] s.subrange(v, w)[k]
            == tail.subrange(5 + n, 7 + n + m)[k] by {
            assert(s[p + (5 + n + k)] == tail[5 + n + k]);
        }
    }
    assert(s.subrange(v + 1, v + 1 + m) =~= tail.subrange(6 + n, 6 + n + m)) by {
        assert forall|k: int| 0 <= k < m implies #[trigger] s.subrange(v + 1, v + 1 + m)[k]
            == tail.subrange(6 + n, 6 + n + m)[k] by {
            assert(s[p + (6 + n + k)] == tail[6 + n + k]);
        }
    }
    assert(s.subrange(w, w + after.len()) =~= tail.subrange(7 + n + m, tail.len() as int)) by {
        assert forall|k: int|
            0 <= k < after.len() implies #[trigger] s.subrange(w, w + after.len())[k]
            == tail.subrange(7 + n + m, tail.len() as int)[k] by {
            assert(s[p + (7 + n + m + k)] == tail[7 + n + m + k]);
        }
    }
}

/// The scanner reads the first field of a plain tail: where its name and
/// its value end, and what stands after the value.
proof fn lemma_first_plain_field(s: Seq<char>, p: int, fields: Seq<PlainField>)
    requires
        0 <= p,
        p + plain_tail(fields).len() <= s.len(),
        s.subrange(p, p + plain_tail(fields).len()) == plain_tail(fields),
        fields.len() > 0,
        is_plain_field(fields[0]),
    ensures
        ({
            let n = fields[0].name.len() as int;
            let m = fields[0].text.len() as int;
            let after = plain_tail(fields.skip(1));
            let w = p + 7 + n + m;
            &&& skip_spaces(s, p + 1) == p + 2
            &&& s[p + 2] != '}' && s[p + 2] != ','
            &&& run_end(s, p + 2, CharClass::Atom) == p + 2 + n
            &&& skip_spaces(s, p + 2 + n) == p + 3 + n
            &&& s[p + 3 + n] == '='
            &&& skip_spaces(s, p + 4 + n) == p + 5 + n
            &&& value_end(s, p + 5 + n) == Ok::<int, ParseFault>(w)
            &&& skip_spaces(s, w) == w
            &&& w < s.len()
            &&& s[w] == after[0]
            &&& s.subrange(p + 2, p + 2 + n) == fields[0].name
            &&& s.subrange(p + 5 + n, w) == delimited(fields[0])
            &&& w + after.len() <= s.len()
            &&& s.subrange(w, w + after.len()) == after
        }),
{
    let name = fields[0].name;
    let text = fields[0].text;
    let n = name.len() as int;
    let m = text.len() as int;
    let after = plain_tail(fields.skip(1));
    let v = p + 5 + n;
    let w = p + 7 + n + m;
    lemma_plain_tail_layout(fields);
    lemma_plain_field_stands(s, p, fields);
    assert forall|k: int| p + 2 <= k < p + 2 + n implies CharClass::Atom.holds(
        #[trigger] s[k],
    ) by {
        assert(s.subrange(p + 2, p + 2 + n)[k - p - 2] == s[k]);
    }
    assert(s[p + 2] != '}' && s[p + 2] != ',') by {
        assert(CharClass::Atom.holds(s[p + 2]));
    }
    assert(s[v] == delimited(fields[0])[0]) by {
        assert(s.subrange(v, w)[0] == s[v]);
    }
    assert(s[v + 1 + m] == delimited(fields[0])[m + 1]) by {
        assert(s.subrange(v, w)[m + 1] == s[v + 1 + m]);
    }
    assert(s[w] == after[0]) by {
        assert(s.subrange(w, w + after.len())[0] == s[w]);
    }
    assert(!is_space(s[w])) by {
        if fields.len() > 1 {
            assert(after[0] == ',');
        } else {
            assert(after[0] == '}');
        }
    }
    assert(skip_spaces(s, p + 1) == p + 2) by {
        lemma_run_over(s, p + 1, CharClass::Space, 1);
    }
    assert(run_end(s, p + 2, CharClass::Atom) == p + 2 + n) by {
        lemma_run_over(s, p + 2, CharClass::Atom, n);
    }
    assert(skip_spaces(s, p + 2 + n) == p + 3 + n) by {
        lemma_run_over(s, p + 2 + n, CharClass::Space, 1);
    }
    assert(skip_spaces(s, p + 4 + n) == v) by {
        lemma_run_over(s, p + 4 + n, CharClass::Space, 1);
    }
    assert(skip_spaces(s, w) == w) by {
        lemma_run_over(s, w, CharClass::Space, 0);
    }
    assert(value_end(s, v) == Ok::<int, ParseFault>(w)) by {
        if fields[0].quoted {
            lemma_quoted_of_balanced(s, v, text);
        } else {
            lemma_group_of_balanced(s, v, text);
        }
    }
}

/// The scanner reads the fields of a plain tail back, each with its text
/// between its delimiters.
proof fn lemma_fields_of_plain_tail(s: Seq<char>, p: int, fields: Seq<PlainField>)
    requires
        0 <= p,
        p + plain_tail(fields).len() <= s.len(),
        s.subrange(p, p + plain_tail(fields).len()) == plain_tail(fields),
        fields.len() > 0,
        are_plain_fields(fields),
    ensures
        fields_from(s, p + 1, false) == Ok::<Seq<(Seq<char>, Seq<char>)>, ParseFault>(
            raw_fields(fields),
        ),
    decreases fields.len(),
{
    let rest = fields.skip(1);
    let n = fields[0].name.len() as int;
    let m = fields[0].text.len() as int;
    let w = p + 7 + n + m;
    let field = (fields[0].name, delimited(fields[0]));
    assert(is_plain_field(fields[0]));
    lemma_plain_tail_layout(fields);
    lemma_first_plain_field(s, p, fields);
    if rest.len() == 0 {
        assert(raw_fields(fields) =~= seq![field]);
    } else {
        assert(are_plain_fields(rest)) by {
            assert forall|k: int| 0 <= k < rest.len() implies is_plain_field(
                #[trigger] rest[k],
            ) by {
                assert(rest[k] == fields[k + 1]);
            }
        }
        lemma_fields_of_plain_tail(s, w, rest);
        assert(seq![field] + raw_fields(rest) =~= raw_fields(fields)) by {
            assert forall|k: int| 0 <= k < fields.len() implies (seq![field] + raw_fields(
                rest,
            ))[k] == raw_fields(fields)[k] by {
                if k > 0 {
                    assert(rest[k - 1] == fields[k]);
                }
            }
        }
    }
}

/// The scanner reads an entry in plain form back: it finds the keyword as
/// it was written, and every field with its name and with its text between
/// its delimiters, in the order in which they were written. What follows
/// the entry is not read.
pub proof fn lemma_tokens_of_plain_entry(
    keyword: Seq<char>,
    key: Seq<char>,
    fields: Seq<PlainField>,
    trailing: Seq<char>,
)
    requires
        is_word(keyword),
        is_token(key),
        are_plain_fields(fields),
    ensures
        keyword_of(plain_entry(keyword, key, fields) + trailing) == Some(keyword),
        body_fields(
            plain_entry(keyword, key, fields) + trailing,
            keyword_end(plain_entry(keyword, key, fields) + trailing),
        ) == Ok::<Seq<(Seq<char>, Seq<char>)>, ParseFault>(raw_fields(fields)),
        tokens(plain_entry(keyword, key, fields) + trailing) == Ok::<
            (Seq<char>, Seq<(Seq<char>, Seq<char>)>),
            ParseFault,
        >((keyword, raw_fields(fields))),
{
    let entry = plain_entry(keyword, key, fields);
    let s = entry + trailing;
    let tail = plain_tail(fields);
    let kl = keyword.len() as int;
    let yl = key.len() as int;
    assert(tail.len() >= 1 && (tail[0] == ',' || tail[0] == '}')) by {
        if fields.len() > 0 {
            assert(tail == seq![','] + plain_field(fields[0]) + plain_tail(fields.skip(1)));
        }
    }
    assert(entry.len() == 2 + kl + yl + tail.len());
    assert forall|k: int| 0 <= k < entry.len() implies s[k] == #[trigger] entry[k] by {}
    assert(entry[0] == '@');
    assert forall|k: int| 0 <= k < kl implies entry[1 + k] == keyword[k] by {}
    assert(entry[1 + kl] == '{');
    assert forall|k: int| 0 <= k < yl implies entry[2 + kl + k] == key[k] by {}
    assert forall|k: int| 0 <= k < tail.len() implies entry[2 + kl + yl + k] == tail[k] by {}
    let open = 1 + kl;
    let j = 2 + kl;
    let p = 2 + kl + yl;
    assert(skip_spaces(s, 0) == 0) by {
        assert(s[0] == entry[0]);
        lemma_run_over(s, 0, CharClass::Space, 0);
    }
    assert(keyword_start(s) == 1) by {
        assert(s[0] == entry[0]);
        assert(s[1] == entry[1] && entry[1] == keyword[0]);
        lemma_run_over(s, 1, CharClass::Space, 0);
    }
    assert(keyword_end(s) == open) by {
        assert forall|k: int| 1 <= k < 1 + kl implies CharClass::Word.holds(#[trigger] s[k]) by {
            assert(s[k] == entry[k]);
            assert(entry[1 + (k - 1)] == keyword[k - 1]);
        }
        assert(s[open] == entry[open]);
        lemma_run_over(s, 1, CharClass::Word, kl);
    }
    assert(s.subrange(1, open) =~= keyword) by {
        assert forall|k: int| 0 <= k < kl implies s.subrange(1, open)[k] == keyword[k] by {
            assert(s[1 + k] == entry[1 + k]);
        }
    }
    assert(skip_spaces(s, open) == open) by {
        assert(s[open] == entry[open]);
        lemma_run_over(s, open, CharClass::Space, 0);
    }
    assert(s[open] == '{') by {
        assert(s[open] == entry[open]);
    }
    assert(s[j] == key[0]) by {
        assert(s[j] == entry[j]);
        assert(entry[2 + kl] == key[0]);
    }
    assert(skip_spaces(s, j) == j) by {
        lemma_run_over(s, j, CharClass::Space, 0);
    }
    assert(s[p] == tail[0]) by {
        assert(s[p] == entry[p]);
        assert(entry[2 + kl + yl] == tail[0]);
    }
    assert(run_end(s, j, CharClass::Atom) == p) by {
        assert forall|k: int| j <= k < j + yl implies CharClass::Atom.holds(#[trigger] s[k]) by {
            assert(s[k] == entry[k]);
            assert(entry[2 + kl + (k - j)] == key[k - j]);
        }
        lemma_run_over(s, j, CharClass::Atom, yl);
    }
    assert(skip_spaces(s, p) == p) by {
        lemma_run_over(s, p, CharClass::Space, 0);
    }
    if fields.len() == 0 {
        assert(tail == seq!['}']);
        assert(raw_fields(fields) =~= Seq::empty());
    } else {
        assert(s.subrange(p, p + tail.len()) =~= tail) by {
            assert forall|k: int| 0 <= k < tail.len() implies s.subrange(p, p + tail.len())[k]
                == tail[k] by {
                assert(s[p + k] == entry[p + k]);
            }
        }
        lemma_fields_of_plain_tail(s, p, fields);
    }
    assert(fields_from(s, j, true) == Ok::<Seq<(Seq<char>, Seq<char>)>, ParseFault>(
        raw_fields(fields),
    ));
}

/// Cleaning the text of a field between its delimiters cleans the text.
pub proof fn lemma_normalized_of_delimited(field: PlainField)
    ensures
        normalized(delimited(field)) == clean_body(field.text),
{
    let raw = delimited(field);
    assert(raw.subrange(1, raw.len() - 1) =~= field.text);
}

/// Parsing reads an entry in plain form back. Where the keyword names an
/// entry type, the outcome is the record of that type with the clean text of
/// each field, if a title is among the fields, and the fault of a missing
/// title if none is. Where the keyword names no type, the outcome is the
/// fault of an unknown type, with the keyword as it was written.
pub proof fn lemma_parse_of_plain_entry(
    keyword: Seq<char>,
    key: Seq<char>,
    fields: Seq<PlainField>,
    trailing: Seq<char>,
)
    requires
        is_word(keyword),
        is_token(key),
        are_plain_fields(fields),
    ensures
        parse_entry(plain_entry(keyword, key, fields) + trailing) == match entry_type_of(keyword) {
            Some(entry_type) => record_of(entry_type, clean_texts(fields)),
            None => Err::<Record, ParseFault>(ParseFault::UnknownEntryType(keyword)),
        },
{
    lemma_tokens_of_plain_entry(keyword, key, fields, trailing);
    assert(clean_fields(raw_fields(fields)) =~= clean_texts(fields)) by {
        assert forall|k: int| 0 <= k < fields.len() implies clean_fields(raw_fields(fields))[k]
            == clean_texts(fields)[k] by {
            lemma_normalized_of_delimited(fields[k]);
        }
    }
}

/// Of an entry in plain form with a keyword that names an entry type and
/// with a title among its fields: parsing gives a record, its entry type is
/// the one that the keyword names, and its title is the clean text of the
/// title that was written last. Where that text holds no backslash, no
/// brace and no line feed, the title is the text itself.
pub proof fn lemma_title_of_plain_entry(
    keyword: Seq<char>,
    key: Seq<char>,
    fields: Seq<PlainField>,
    trailing: Seq<char>,
    j: int,
)
    requires
        is_word(keyword),
        is_token(key),
        are_plain_fields(fields),
        entry_type_of(keyword) is Some,
        names_last(raw_fields(fields), j, Field::Title),
    ensures
        parse_entry(plain_entry(keyword, key, fields) + trailing) is Ok,
        parse_entry(plain_entry(keyword, key, fields) + trailing)->Ok_0.entry_type
            == entry_type_of(keyword)->0,
        parse_entry(plain_entry(keyword, key, fields) + trailing)->Ok_0.fields[Field::Title]
            == clean_body(fields[j].text),
        is_literal(fields[j].text) ==> parse_entry(
            plain_entry(keyword, key, fields) + trailing,
        )->Ok_0.fields[Field::Title] == fields[j].text,
{
    lemma_parse_of_plain_entry(keyword, key, fields, trailing);
    let raw = raw_fields(fields);
    let clean = clean_texts(fields);
    lemma_record_fields(clean, Field::Title);
    assert(names(raw, j, Field::Title));
    assert(names_last(clean, j, Field::Title)) by {
        assert(clean[j].0 == raw[j].0);
        assert forall|k: int| j < k < clean.len() implies !names(clean, k, Field::Title) by {
            assert(!names(raw, k, Field::Title));
            assert(clean[k].0 == raw[k].0);
        }
    }
    assert(names(clean, j, Field::Title));
    assert(clean[j].1 == clean_body(fields[j].text));
    if is_literal(fields[j].text) {
        lemma_clean_body_of_literal(fields[j].text);
    }
}

/// The fields of an entry in plain form, each after a comma: what stands
/// between the key and the closing brace.
pub open spec fn plain_list(fields: Seq<PlainField>) -> Seq<char>
    decreases fields.len(),
{
    if fields.len() == 0 {
        Seq::empty()
    } else {
        seq![','] + plain_field(fields[0]) + plain_list(fields.skip(1))
    }
}

/// What follows the key is the fields and the closing brace.
proof fn lemma_plain_tail_closes(fields: Seq<PlainField>)
    ensures
        plain_tail(fields) == plain_list(fields) + seq!['}'],
    decreases fields.len(),
{
    if fields.len() > 0 {
        lemma_plain_tail_closes(fields.skip(1));
        assert(plain_tail(fields) =~= plain_list(fields) + seq!['}']);
    } else {
        assert(plain_tail(fields) =~= plain_list(fields) + seq!['}']);
    }
}

/// The braces of a field in plain form match.
proof fn lemma_plain_field_balanced(field: PlainField)
    requires
        is_plain_field(field),
    ensures
        is_balanced(seq![','] + plain_field(field)),
{
    let lead = seq![',', ' '] + field.name + seq![' ', '=', ' '];
    assert forall|k: int| 0 <= k < lead.len() implies brace_step(#[trigger] lead[k]) == 0 by {
        if 2 <= k < 2 + field.name.len() {
            assert(lead[k] == field.name[k - 2]);
        }
    }
    lemma_balanced_without_braces(lead);
    if field.quoted {
        let quote = seq!['"'];
        lemma_balanced_without_braces(quote);
        lemma_balanced_joined(quote, field.text);
        lemma_balanced_joined(quote + field.text, quote);
    } else {
        lemma_balanced_group(field.text);
    }
    lemma_balanced_joined(lead, delimited(field));
    assert(seq![','] + plain_field(field) =~= lead + delimited(field));
}

/// The braces of the fields of an entry in plain form match.
proof fn lemma_plain_list_balanced(fields: Seq<PlainField>)
    requires
        are_plain_fields(fields),
    ensures
        is_balanced(plain_list(fields)),
    decreases fields.len(),
{
    if fields.len() == 0 {
        lemma_balanced_without_braces(plain_list(fields));
    } else {
        let rest = fields.skip(1);
        assert(are_plain_fields(rest)) by {
            assert forall|k: int| 0 <= k < rest.len() implies is_plain_field(
                #[trigger] rest[k],
            ) by {
                assert(rest[k] == fields[k + 1]);
            }
        }
        assert(is_plain_field(fields[0]));
        lemma_plain_field_balanced(fields[0]);
        lemma_plain_list_balanced(rest);
        lemma_balanced_joined(seq![','] + plain_field(fields[0]), plain_list(rest));
    }
}

/// In an entry in plain form the braces match, and a brace is open from
/// after the brace that opens the body up to the brace that closes it.
pub proof fn lemma_plain_entry_levels(
    keyword: Seq<char>,
    key: Seq<char>,
    fields: Seq<PlainField>,
)
    requires
        is_word(keyword),
        is_token(key),
        are_plain_fields(fields),
    ensures
        is_balanced(plain_entry(keyword, key, fields)),
        forall|n: int|
            keyword.len() + 2 <= n < plain_entry(keyword, key, fields).len() ==> brace_level(
                plain_entry(keyword, key, fields),
                n,
            ) >= 1,
{
    let entry = plain_entry(keyword, key, fields);
    let lead = seq!['@'] + keyword;
    let inner = key + plain_list(fields);
    let group = seq!['{'] + inner + seq!['}'];
    lemma_plain_tail_closes(fields);
    assert(entry =~= lead + group);
    assert forall|k: int| 0 <= k < lead.len() implies brace_step(#[trigger] lead[k]) == 0 by {
        if k >= 1 {
            assert(lead[k] == keyword[k - 1]);
        }
    }
    lemma_balanced_without_braces(lead);
    assert forall|k: int| 0 <= k < key.len() implies brace_step(#[trigger] key[k]) == 0 by {}
    lemma_balanced_without_braces(key);
    lemma_plain_list_balanced(fields);
    lemma_balanced_joined(key, plain_list(fields));
    lemma_balanced_group(inner);
    lemma_balanced_joined(lead, group);
    assert forall|n: int| keyword.len() + 2 <= n < entry.len() implies brace_level(entry, n)
        >= 1 by {
        lemma_brace_level_joined(lead, group, n);
    }
}

/// An entry in plain form, with blanks after it, is one entry of a
/// document and leaves no brace open.
pub proof fn lemma_plain_entry_alone(
    keyword: Seq<char>,
    key: Seq<char>,
    fields: Seq<PlainField>,
    trailing: Seq<char>,
)
    requires
        is_word(keyword),
        is_token(key),
        are_plain_fields(fields),
        forall|k: int| 0 <= k < trailing.len() ==> is_space(#[trigger] trailing[k]),
    ensures
        parse_all(plain_entry(keyword, key, fields) + trailing) == seq![
            parse_entry(plain_entry(keyword, key, fields) + trailing),
        ],
        depth_at(
            plain_entry(keyword, key, fields) + trailing,
            (plain_entry(keyword, key, fields) + trailing).len() as int,
        ) == 0,
{
    let entry = plain_entry(keyword, key, fields);
    let s = entry + trailing;
    lemma_plain_entry_levels(keyword, key, fields);
    assert forall|k: int| 0 <= k < trailing.len() implies brace_step(#[trigger] trailing[k])
        == 0 by {
        assert(is_space(trailing[k]));
    }
    assert forall|n: int| 0 <= n <= s.len() implies brace_level(s, n) >= 0 && (keyword.len() + 2
        <= n < entry.len() ==> brace_level(s, n) >= 1) && (n == s.len() ==> brace_level(s, n)
        == 0) by {
        lemma_brace_level_joined(entry, trailing, n);
        if n >= entry.len() {
            lemma_level_without_braces(trailing, n - entry.len());
        }
    }
    assert(entry.len() >= keyword.len() + 3);
    assert forall|i: int| 0 < i < s.len() implies !is_entry_start(s, i) by {
        if i <= keyword.len() {
            assert(s[i] == keyword[i - 1]);
        } else if i == keyword.len() + 1 {
            assert(s[i] == '{');
        } else if i < entry.len() {
            lemma_depth_is_level(s, i);
        } else {
            assert(s[i] == trailing[i - entry.len()]);
        }
    }
    assert(s[0] == '@');
    lemma_single_entry(s);
    lemma_depth_is_level(s, s.len() as int);
}

/// In a document, an entry in plain form has the outcome that it has alone,
/// and the entries after it have the outcomes that they have without it:
/// whatever these hold, a fault in one of them changes nothing in the
/// outcome of the entry, nor a fault in the entry anything in theirs.
pub proof fn lemma_plain_entry_in_document(
    keyword: Seq<char>,
    key: Seq<char>,
    fields: Seq<PlainField>,
    trailing: Seq<char>,
    rest: Seq<char>,
)
    requires
        is_word(keyword),
        is_token(key),
        are_plain_fields(fields),
        forall|k: int| 0 <= k < trailing.len() ==> is_space(#[trigger] trailing[k]),
        rest.len() > 0 ==> rest[0] == '@',
    ensures
        parse_all(plain_entry(keyword, key, fields) + trailing + rest) == seq![
            parse_entry(plain_entry(keyword, key, fields) + trailing),
        ] + parse_all(rest),
{
    lemma_plain_entry_alone(keyword, key, fields, trailing);
    lemma_parse_all_joined(plain_entry(keyword, key, fields) + trailing, rest);
}

} // verus!
