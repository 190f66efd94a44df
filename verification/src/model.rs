//! The mathematical model of the configuration format.
//!
//! Everything here is specification-level: the value model [`Val`], the
//! character-by-character lexer machine ([`lex_step`], [`lex_run`]), the
//! recursive value grammar ([`parse_value_spec`]), the canonical formatter
//! ([`format_val`]), and the line-oriented store ([`parse_store_spec`],
//! [`format_store_spec`]).  The executable code in the other modules is
//! verified against these definitions, and the round-trip laws are proved
//! about them.

use vstd::prelude::*;

use crate::config::Flag;
use crate::errors::{ParseError, StoreError};

verus! {

// ---------------------------------------------------------------------------
// Character classes
// ---------------------------------------------------------------------------

/// Whitespace for this format: the blank characters the lexer skips between
/// tokens and that surrounding trims remove.
pub open spec fn is_ws(c: char) -> bool {
    c == ' ' || c == '\t' || c == '\n' || c == '\r'
}

/// Characters that open a delimited value shape.
pub open spec fn is_opener(c: char) -> bool {
    c == '\'' || c == '*' || c == '[' || c == '{'
}

/// The mode the lexer enters on `c` when scanning in plain mode.
pub open spec fn spec_start(c: char) -> Flag {
    if c == '\'' {
        Flag::Text
    } else if c == '*' {
        Flag::Number
    } else if c == '[' {
        Flag::List
    } else if c == '{' {
        Flag::Group
    } else {
        Flag::Normal
    }
}

// ---------------------------------------------------------------------------
// The value model
// ---------------------------------------------------------------------------

/// A decoded value: the abstract form of one piece of configuration text.
///
/// `Number` carries the decimal literal exactly as written between the two
/// `*` delimiters; well-formed numbers satisfy [`is_float_literal`].
pub enum Val {
    Text(Seq<char>),
    Number(Seq<char>),
    List(Seq<Val>),
    Group(Seq<(Seq<char>, Val)>),
}

// ---------------------------------------------------------------------------
// Searching and trimming
// ---------------------------------------------------------------------------

/// Index of the first occurrence of `c` in `s`, if any.
pub open spec fn find_char(s: Seq<char>, c: char) -> Option<int>
    decreases s.len(),
{
    if s.len() == 0 {
        None
    } else if s[0] == c {
        Some(0)
    } else {
        match find_char(s.drop_first(), c) {
            None => None,
            Some(i) => Some(i + 1),
        }
    }
}

/// What [`find_char`] returns: the first index holding `c`, in range, or
/// `None` when `c` does not occur.
pub proof fn lemma_find_char(s: Seq<char>, c: char)
    ensures
        match find_char(s, c) {
            None => forall|j: int| 0 <= j < s.len() ==> (#[trigger] s[j]) != c,
            Some(i) => 0 <= i < s.len() && s[i] == c && forall|j: int|
                0 <= j < i ==> (#[trigger] s[j]) != c,
        },
    decreases s.len(),
{
    if s.len() > 0 && s[0] != c {
        lemma_find_char(s.drop_first(), c);
        assert forall|j: int| 1 <= j < s.len() implies (#[trigger] s[j]) == s.drop_first()[j - 1] by {
        }
    }
}

/// `s` without its leading whitespace.
pub open spec fn trim_front(s: Seq<char>) -> Seq<char>
    decreases s.len(),
{
    if s.len() > 0 && is_ws(s[0]) {
        trim_front(s.drop_first())
    } else {
        s
    }
}

/// `s` without its trailing whitespace.
pub open spec fn trim_back(s: Seq<char>) -> Seq<char>
    decreases s.len(),
{
    if s.len() > 0 && is_ws(s.last()) {
        trim_back(s.drop_last())
    } else {
        s
    }
}

/// `s` without surrounding whitespace.
pub open spec fn trim(s: Seq<char>) -> Seq<char> {
    trim_back(trim_front(s))
}

// ---------------------------------------------------------------------------
// Decimal float literals
// ---------------------------------------------------------------------------
//
// The grammar of a numeric literal is the standard decimal float literal
// form: an optional sign, then either a case-insensitive special word
// (`inf`, `infinity`, `nan`) or digits with an optional point and an
// optional exponent part.

pub open spec fn is_digit(c: char) -> bool {
    ('0' as u32) <= (c as u32) && (c as u32) <= ('9' as u32)
}

pub open spec fn all_digits(s: Seq<char>) -> bool {
    forall|i: int| 0 <= i < s.len() ==> is_digit(#[trigger] s[i])
}

/// `s` without one leading `+` or `-`, if present.
pub open spec fn strip_sign(s: Seq<char>) -> Seq<char> {
    if s.len() > 0 && (s[0] == '+' || s[0] == '-') {
        s.drop_first()
    } else {
        s
    }
}

/// Case-insensitive match of one character against a lower-case letter and
/// its upper-case form.
pub open spec fn eqci(c: char, lo: char, up: char) -> bool {
    c == lo || c == up
}

pub open spec fn is_inf_word(s: Seq<char>) -> bool {
    s.len() == 3 && eqci(s[0], 'i', 'I') && eqci(s[1], 'n', 'N') && eqci(s[2], 'f', 'F')
}

pub open spec fn is_infinity_word(s: Seq<char>) -> bool {
    s.len() == 8 && eqci(s[0], 'i', 'I') && eqci(s[1], 'n', 'N') && eqci(s[2], 'f', 'F')
        && eqci(s[3], 'i', 'I') && eqci(s[4], 'n', 'N') && eqci(s[5], 'i', 'I')
        && eqci(s[6], 't', 'T') && eqci(s[7], 'y', 'Y')
}

pub open spec fn is_nan_word(s: Seq<char>) -> bool {
    s.len() == 3 && eqci(s[0], 'n', 'N') && eqci(s[1], 'a', 'A') && eqci(s[2], 'n', 'N')
}

/// Index of the first exponent marker (`e` or `E`) in `s`, if any.
pub open spec fn find_exp(s: Seq<char>) -> Option<int>
    decreases s.len(),
{
    if s.len() == 0 {
        None
    } else if s[0] == 'e' || s[0] == 'E' {
        Some(0)
    } else {
        match find_exp(s.drop_first()) {
            None => None,
            Some(i) => Some(i + 1),
        }
    }
}

/// Digits with an optional single point, at least one digit in all.
pub open spec fn is_mantissa(m: Seq<char>) -> bool {
    match find_char(m, '.') {
        None => m.len() > 0 && all_digits(m),
        Some(i) => {
            let a = m.take(i);
            let b = m.skip(i + 1);
            all_digits(a) && all_digits(b) && (a.len() > 0 || b.len() > 0)
        },
    }
}

/// An optional sign then at least one digit.
pub open spec fn is_exponent(e: Seq<char>) -> bool {
    let d = strip_sign(e);
    d.len() > 0 && all_digits(d)
}

/// The full decimal float literal grammar.
pub open spec fn is_float_literal(s: Seq<char>) -> bool {
    let b = strip_sign(s);
    ||| is_inf_word(b)
    ||| is_infinity_word(b)
    ||| is_nan_word(b)
    ||| match find_exp(b) {
        None => is_mantissa(b),
        Some(i) => is_mantissa(b.take(i)) && is_exponent(b.skip(i + 1)),
    }
}

// ---------------------------------------------------------------------------
// The lexer machine
// ---------------------------------------------------------------------------

/// The full state of the lexer after some prefix of the input: the current
/// mode, the bracket depth inside a composite mode, the accumulation buffer,
/// and the tokens flushed so far.
#[verifier::ext_equal]
pub struct LexSt {
    pub flag: Flag,
    pub depth: int,
    pub buf: Seq<char>,
    pub toks: Seq<Seq<char>>,
}

/// The lexer's starting state.
pub open spec fn lex_init() -> LexSt {
    LexSt { flag: Flag::Normal, depth: 0, buf: Seq::empty(), toks: Seq::empty() }
}

/// One step of the lexer on character `c` with separator `sep`.
///
/// In plain mode whitespace is skipped, the separator flushes the buffer as
/// a token, and a delimiter character switches the mode.  In a non-plain
/// mode every character is appended verbatim; list and group modes keep a
/// depth count so that a nested composite of the same kind does not close
/// the outer one, while text and number modes close on the first matching
/// delimiter (their opening and closing characters coincide).
pub open spec fn lex_step(st: LexSt, c: char, sep: char) -> LexSt {
    match st.flag {
        Flag::Normal => {
            if is_ws(c) {
                st
            } else if c == sep {
                LexSt { flag: Flag::Normal, depth: 0, buf: Seq::empty(), toks: st.toks.push(st.buf) }
            } else {
                let f = spec_start(c);
                let d: int = if f is List || f is Group { 1 } else { 0 };
                LexSt { flag: f, depth: d, buf: st.buf.push(c), toks: st.toks }
            }
        },
        Flag::Text => {
            let b = st.buf.push(c);
            if c == '\'' {
                LexSt { flag: Flag::Normal, depth: 0, buf: b, toks: st.toks }
            } else {
                LexSt { flag: Flag::Text, depth: st.depth, buf: b, toks: st.toks }
            }
        },
        Flag::Number => {
            let b = st.buf.push(c);
            if c == '*' {
                LexSt { flag: Flag::Normal, depth: 0, buf: b, toks: st.toks }
            } else {
                LexSt { flag: Flag::Number, depth: st.depth, buf: b, toks: st.toks }
            }
        },
        Flag::List => {
            let b = st.buf.push(c);
            if c == '[' {
                LexSt { flag: Flag::List, depth: st.depth + 1, buf: b, toks: st.toks }
            } else if c == ']' {
                if st.depth == 1 {
                    LexSt { flag: Flag::Normal, depth: 0, buf: b, toks: st.toks }
                } else {
                    LexSt { flag: Flag::List, depth: st.depth - 1, buf: b, toks: st.toks }
                }
            } else {
                LexSt { flag: Flag::List, depth: st.depth, buf: b, toks: st.toks }
            }
        },
        Flag::Group => {
            let b = st.buf.push(c);
            if c == '{' {
                LexSt { flag: Flag::Group, depth: st.depth + 1, buf: b, toks: st.toks }
            } else if c == '}' {
                if st.depth == 1 {
                    LexSt { flag: Flag::Normal, depth: 0, buf: b, toks: st.toks }
                } else {
                    LexSt { flag: Flag::Group, depth: st.depth - 1, buf: b, toks: st.toks }
                }
            } else {
                LexSt { flag: Flag::Group, depth: st.depth, buf: b, toks: st.toks }
            }
        },
    }
}

/// The lexer run over a whole character sequence, from state `st`.
pub open spec fn lex_run(st: LexSt, s: Seq<char>, sep: char) -> LexSt
    decreases s.len(),
{
    if s.len() == 0 {
        st
    } else {
        lex_step(lex_run(st, s.drop_last(), sep), s.last(), sep)
    }
}

/// Lexing the interior of a composite value: the token list, or `None` when
/// the input ends inside an unterminated delimiter.
pub open spec fn lex_spec(s: Seq<char>, sep: char) -> Option<Seq<Seq<char>>> {
    let st = lex_run(lex_init(), s, sep);
    if !(st.flag is Normal) {
        None
    } else if st.buf.len() > 0 {
        Some(st.toks.push(st.buf))
    } else {
        Some(st.toks)
    }
}

// ---------------------------------------------------------------------------
// Entry sequences: lookup and upsert
// ---------------------------------------------------------------------------

/// The position of the first entry under key `k` at or after `i`, if any.
pub open spec fn first_key_idx(m: Seq<(Seq<char>, Val)>, k: Seq<char>, i: int) -> Option<int>
    decreases m.len() - i,
{
    if i < 0 || i >= m.len() {
        None
    } else if m[i].0 == k {
        Some(i)
    } else {
        first_key_idx(m, k, i + 1)
    }
}

/// The value under `k` in an entry sequence, if any (first match).
pub open spec fn lookup(m: Seq<(Seq<char>, Val)>, k: Seq<char>) -> Option<Val> {
    match first_key_idx(m, k, 0) {
        None => None,
        Some(i) => Some(m[i].1),
    }
}

/// Replace the value under `k` in place, or append a new entry at the end.
/// Later writes to the same key win; the key keeps its first position.
pub open spec fn upsert(m: Seq<(Seq<char>, Val)>, k: Seq<char>, v: Val) -> Seq<(Seq<char>, Val)> {
    match first_key_idx(m, k, 0) {
        None => m.push((k, v)),
        Some(i) => m.update(i, (k, v)),
    }
}

// ---------------------------------------------------------------------------
// The recursive value grammar
// ---------------------------------------------------------------------------

/// Parse one value from text.
///
/// The trimmed text is dispatched on its first and last character: a quoted
/// form is text verbatim, a starred form must hold a float literal, a
/// bracketed form is lexed with `,` and each token parsed as a list element,
/// a braced form is lexed with `;` and each non-empty token split on its
/// first `:` into a group entry.  Text that merely *starts* with a delimiter
/// character is an unterminated form and is rejected; all remaining text is
/// a bare scalar, kept as text exactly as it stands after the trim.
pub open spec fn parse_value_spec(s: Seq<char>) -> Result<Val, ParseError>
    decreases s.len(), 1int, 0int,
{
    let t = trim(s);
    if t.len() >= 2 && t[0] == '\'' && t.last() == '\'' {
        Ok(Val::Text(t.subrange(1, t.len() - 1)))
    } else if t.len() >= 2 && t[0] == '*' && t.last() == '*' {
        let b = t.subrange(1, t.len() - 1);
        if is_float_literal(b) {
            Ok(Val::Number(b))
        } else {
            Err(ParseError::MalformedNumber)
        }
    } else if t.len() >= 2 && t[0] == '[' && t.last() == ']' {
        match lex_spec(t.subrange(1, t.len() - 1), ',') {
            None => Err(ParseError::UnterminatedDelimiter),
            Some(toks) => match parse_items_spec(s.len() as int, toks, 0) {
                Err(e) => Err(e),
                Ok(items) => Ok(Val::List(items)),
            },
        }
    } else if t.len() >= 2 && t[0] == '{' && t.last() == '}' {
        match lex_spec(t.subrange(1, t.len() - 1), ';') {
            None => Err(ParseError::UnterminatedDelimiter),
            Some(toks) => match parse_entries_spec(s.len() as int, toks, 0, Seq::empty()) {
                Err(e) => Err(e),
                Ok(es) => Ok(Val::Group(es)),
            },
        }
    } else if t.len() >= 1 && is_opener(t[0]) {
        Err(ParseError::UnterminatedDelimiter)
    } else {
        Ok(Val::Text(t))
    }
}

/// Parse the tokens of a list body from token `i` on.  `bound` is the
/// length of the whole list text; every token the lexer yields is strictly
/// shorter, so the over-length branch is never reached on lexer output.
pub open spec fn parse_items_spec(bound: int, toks: Seq<Seq<char>>, i: int) -> Result<
    Seq<Val>,
    ParseError,
>
    decreases bound, 0int, toks.len() - i,
{
    if bound < 0 || i < 0 {
        Err(ParseError::UnterminatedDelimiter)
    } else if i >= toks.len() {
        Ok(Seq::empty())
    } else if toks[i].len() >= bound {
        Err(ParseError::UnterminatedDelimiter)
    } else {
        match parse_value_spec(toks[i]) {
            Err(e) => Err(e),
            Ok(v) => match parse_items_spec(bound, toks, i + 1) {
                Err(e) => Err(e),
                Ok(rest) => Ok(seq![v] + rest),
            },
        }
    }
}

/// Parse the non-empty tokens of a group body from token `i` on into
/// `acc`, splitting each on its first `:`; a later duplicate key
/// overwrites the earlier entry.
pub open spec fn parse_entries_spec(
    bound: int,
    toks: Seq<Seq<char>>,
    i: int,
    acc: Seq<(Seq<char>, Val)>,
) -> Result<Seq<(Seq<char>, Val)>, ParseError>
    decreases bound, 0int, toks.len() - i,
{
    if bound < 0 || i < 0 {
        Err(ParseError::UnterminatedDelimiter)
    } else if i >= toks.len() {
        Ok(acc)
    } else if toks[i].len() == 0 {
        parse_entries_spec(bound, toks, i + 1, acc)
    } else if toks[i].len() >= bound {
        Err(ParseError::UnterminatedDelimiter)
    } else {
        match find_char(toks[i], ':') {
            None => Err(ParseError::MalformedEntry),
            Some(ci) => {
                proof {
                    lemma_find_char(toks[i], ':');
                }
                let k = toks[i].take(ci);
                let vt = toks[i].skip(ci + 1);
                match parse_value_spec(vt) {
                    Err(e) => Err(e),
                    Ok(v) => parse_entries_spec(bound, toks, i + 1, upsert(acc, k, v)),
                }
            },
        }
    }
}

// ---------------------------------------------------------------------------
// The canonical formatter
// ---------------------------------------------------------------------------

/// Canonical text of one value: `'text'`, `*number*`, `[a,b,...]` with the
/// separator between elements, or `{k:v;...}` with a `;` after every entry.
pub open spec fn format_val(v: Val) -> Seq<char>
    decreases v, 0int,
{
    match v {
        Val::Text(s) => seq!['\''] + s + seq!['\''],
        Val::Number(s) => seq!['*'] + s + seq!['*'],
        Val::List(items) => seq!['['] + format_items_from(items, 0) + seq![']'],
        Val::Group(es) => seq!['{'] + format_entries_from(es, 0) + seq!['}'],
    }
}

/// The body of a formatted list from element `i` on, `,`-separated.
pub open spec fn format_items_from(items: Seq<Val>, i: int) -> Seq<char>
    decreases items, items.len() - i,
{
    if i < 0 || i >= items.len() {
        Seq::empty()
    } else if i == items.len() - 1 {
        format_val(items[i])
    } else {
        format_val(items[i]) + seq![','] + format_items_from(items, i + 1)
    }
}

/// The body of a formatted group from entry `i` on, each entry closed by `;`.
pub open spec fn format_entries_from(es: Seq<(Seq<char>, Val)>, i: int) -> Seq<char>
    decreases es, es.len() - i,
{
    if i < 0 || i >= es.len() {
        Seq::empty()
    } else {
        es[i].0 + seq![':'] + format_val(es[i].1) + seq![';'] + format_entries_from(es, i + 1)
    }
}

// ---------------------------------------------------------------------------
// The line-oriented store
// ---------------------------------------------------------------------------

/// Split text on `\n` into lines (no newline removal inside lines).
pub open spec fn split_lines(s: Seq<char>) -> Seq<Seq<char>>
    decreases s.len(),
{
    match find_char(s, '\n') {
        None => seq![s],
        Some(i) => {
            proof {
                lemma_find_char(s, '\n');
            }
            seq![s.take(i)] + split_lines(s.skip(i + 1))
        },
    }
}

/// Fold the store lines from line `i` on into an entry sequence: trim each
/// line, skip lines with no `:`, split on the first `:`, parse the value
/// text, upsert.
pub open spec fn parse_lines_spec(
    lines: Seq<Seq<char>>,
    i: int,
    acc: Seq<(Seq<char>, Val)>,
) -> Result<Seq<(Seq<char>, Val)>, ParseError>
    decreases lines.len() - i,
{
    if i < 0 || i >= lines.len() {
        Ok(acc)
    } else {
        let t = trim(lines[i]);
        match find_char(t, ':') {
            None => parse_lines_spec(lines, i + 1, acc),
            Some(ci) => match parse_value_spec(t.skip(ci + 1)) {
                Err(e) => Err(e),
                Ok(v) => parse_lines_spec(lines, i + 1, upsert(acc, t.take(ci), v)),
            },
        }
    }
}

/// Parse a whole store text into its entry sequence.
pub open spec fn parse_store_spec(s: Seq<char>) -> Result<Seq<(Seq<char>, Val)>, ParseError> {
    parse_lines_spec(split_lines(s), 0, Seq::empty())
}

/// One store line: `key:value`.
pub open spec fn format_entry(k: Seq<char>, v: Val) -> Seq<char> {
    k + seq![':'] + format_val(v)
}

/// A store text from entry `i` on: the entries' lines joined with `\n`.
pub open spec fn format_store_from(m: Seq<(Seq<char>, Val)>, i: int) -> Seq<char>
    decreases m.len() - i,
{
    if i < 0 || i >= m.len() {
        Seq::empty()
    } else if i == m.len() - 1 {
        format_entry(m[i].0, m[i].1)
    } else {
        format_entry(m[i].0, m[i].1) + seq!['\n'] + format_store_from(m, i + 1)
    }
}

/// A whole store text: the entries' lines joined with `\n`.
pub open spec fn format_store_spec(m: Seq<(Seq<char>, Val)>) -> Seq<char> {
    format_store_from(m, 0)
}

/// Mandatory lookup in store text.
pub open spec fn get_spec(s: Seq<char>, k: Seq<char>) -> Result<Val, StoreError> {
    match parse_store_spec(s) {
        Err(e) => Err(StoreError::Parse(e)),
        Ok(m) => match lookup(m, k) {
            Some(v) => Ok(v),
            None => Err(StoreError::KeyNotFound),
        },
    }
}

/// Defaulted lookup in store text: a missing key yields the default, and
/// only a store text that does not parse is an error.
pub open spec fn get_or_spec(s: Seq<char>, k: Seq<char>, d: Val) -> Result<Val, ParseError> {
    match parse_store_spec(s) {
        Err(e) => Err(e),
        Ok(m) => match lookup(m, k) {
            Some(v) => Ok(v),
            None => Ok(d),
        },
    }
}

/// Upsert into store text: parse, replace or append the entry, format.
pub open spec fn set_spec(s: Seq<char>, k: Seq<char>, v: Val) -> Result<Seq<char>, ParseError> {
    match parse_store_spec(s) {
        Err(e) => Err(e),
        Ok(m) => Ok(format_store_spec(upsert(m, k, v))),
    }
}

// ---------------------------------------------------------------------------
// Well-formedness for embedding
// ---------------------------------------------------------------------------

/// Text content that can sit inside composite values without disturbing the
/// single-pass scanner: free of the quote and of the four bracket
/// characters.  (The format has no escaping, so such characters in text are
/// not representable inside composites.)
pub open spec fn text_ok(s: Seq<char>) -> bool {
    forall|i: int|
        0 <= i < s.len() ==> !(#[trigger] s[i] == '\'' || s[i] == '[' || s[i] == ']' || s[i] == '{'
            || s[i] == '}')
}

/// A group key that survives lexing and entry splitting: no whitespace, no
/// entry or key separator, and no delimiter character.
pub open spec fn key_ok(k: Seq<char>) -> bool {
    forall|i: int|
        0 <= i < k.len() ==> !(is_ws(#[trigger] k[i]) || k[i] == ':' || k[i] == ';' || k[i] == '\''
            || k[i] == '*' || k[i] == '[' || k[i] == ']' || k[i] == '{' || k[i] == '}')
}

/// No two entries share a key.
pub open spec fn keys_distinct(es: Seq<(Seq<char>, Val)>) -> bool {
    forall|i: int, j: int| 0 <= i < j < es.len() ==> (#[trigger] es[i].0) != (#[trigger] es[j].0)
}

/// A value whose canonical text parses back to the value itself when nested
/// inside composites: text contents are [`text_ok`], numbers are literals,
/// and group keys are [`key_ok`] and distinct.
pub open spec fn embeddable(v: Val) -> bool
    decreases v, 0int,
{
    match v {
        Val::Text(s) => text_ok(s),
        Val::Number(s) => is_float_literal(s),
        Val::List(items) => embeddable_items_from(items, 0),
        Val::Group(es) => keys_distinct(es) && embeddable_entries_from(es, 0),
    }
}

pub open spec fn embeddable_items_from(items: Seq<Val>, i: int) -> bool
    decreases items, items.len() - i,
{
    if i < 0 || i >= items.len() {
        true
    } else {
        embeddable(items[i]) && embeddable_items_from(items, i + 1)
    }
}

pub open spec fn embeddable_entries_from(es: Seq<(Seq<char>, Val)>, i: int) -> bool
    decreases es, es.len() - i,
{
    if i < 0 || i >= es.len() {
        true
    } else {
        key_ok(es[i].0) && embeddable(es[i].1) && embeddable_entries_from(es, i + 1)
    }
}

/// No newline anywhere in the value's text contents: what a value needs,
/// beyond [`embeddable`], to live in the line-oriented store.
pub open spec fn no_newlines(v: Val) -> bool
    decreases v, 0int,
{
    match v {
        Val::Text(s) => forall|i: int| 0 <= i < s.len() ==> (#[trigger] s[i]) != '\n',
        Val::Number(_) => true,
        Val::List(items) => no_newlines_items_from(items, 0),
        Val::Group(es) => no_newlines_entries_from(es, 0),
    }
}

pub open spec fn no_newlines_items_from(items: Seq<Val>, i: int) -> bool
    decreases items, items.len() - i,
{
    if i < 0 || i >= items.len() {
        true
    } else {
        no_newlines(items[i]) && no_newlines_items_from(items, i + 1)
    }
}

pub open spec fn no_newlines_entries_from(es: Seq<(Seq<char>, Val)>, i: int) -> bool
    decreases es, es.len() - i,
{
    if i < 0 || i >= es.len() {
        true
    } else {
        no_newlines(es[i].1) && no_newlines_entries_from(es, i + 1)
    }
}

/// A key fit for the line-oriented store: no newline, no `:`, and no
/// leading whitespace (the store trims each line, so leading whitespace of
/// a key would not survive a round trip).
pub open spec fn store_key_ok(k: Seq<char>) -> bool {
    &&& forall|i: int| 0 <= i < k.len() ==> (#[trigger] k[i]) != '\n' && k[i] != ':'
    &&& (k.len() > 0 ==> !is_ws(k[0]))
}

// ---------------------------------------------------------------------------
// Facts about the lexer machine
// ---------------------------------------------------------------------------

/// Splitting a run at any point gives the same final state.
pub proof fn lemma_lex_run_append(st: LexSt, a: Seq<char>, b: Seq<char>, sep: char)
    ensures
        lex_run(st, a + b, sep) == lex_run(lex_run(st, a, sep), b, sep),
    decreases b.len(),
{
    if b.len() == 0 {
        assert(a + b =~= a);
    } else {
        lemma_lex_run_append(st, a, b.drop_last(), sep);
        assert((a + b).drop_last() =~= a + b.drop_last());
        assert((a + b).last() == b.last());
    }
}

/// Buffer and token lengths grow by at most the number of characters read.
pub open spec fn toks_short(st: LexSt, b: int) -> bool {
    st.buf.len() <= b && forall|i: int|
        0 <= i < st.toks.len() ==> (#[trigger] st.toks[i]).len() <= b
}

pub proof fn lemma_lex_run_short(st: LexSt, s: Seq<char>, sep: char, b: int)
    requires
        toks_short(st, b),
    ensures
        toks_short(lex_run(st, s, sep), b + s.len()),
    decreases s.len(),
{
    if s.len() > 0 {
        lemma_lex_run_short(st, s.drop_last(), sep, b);
        let st1 = lex_run(st, s.drop_last(), sep);
        assert(toks_short(st1, b + s.len() - 1));
    }
}

/// Every token the lexer yields fits within the input's length.
pub proof fn lemma_lex_token_lens(s: Seq<char>, sep: char)
    ensures
        match lex_spec(s, sep) {
            Some(toks) => forall|i: int|
                0 <= i < toks.len() ==> (#[trigger] toks[i]).len() <= s.len(),
            None => true,
        },
{
    lemma_lex_run_short(lex_init(), s, sep, 0);
}

/// What [`first_key_idx`] returns: the first entry position under the key
/// at or after `i`, or `None` when the key is absent there.
pub proof fn lemma_first_key_idx(m: Seq<(Seq<char>, Val)>, k: Seq<char>, i: int)
    requires
        0 <= i <= m.len(),
    ensures
        match first_key_idx(m, k, i) {
            None => forall|j: int| i <= j < m.len() ==> (#[trigger] m[j].0) != k,
            Some(p) => i <= p < m.len() && m[p].0 == k && forall|j: int|
                i <= j < p ==> (#[trigger] m[j].0) != k,
        },
    decreases m.len() - i,
{
    if i < m.len() && m[i].0 != k {
        lemma_first_key_idx(m, k, i + 1);
    }
}

// ---------------------------------------------------------------------------
// Facts about searching and trimming
// ---------------------------------------------------------------------------

/// What [`find_exp`] returns: the first index holding `e` or `E`, in range,
/// or `None` when neither occurs.
pub proof fn lemma_find_exp(s: Seq<char>)
    ensures
        match find_exp(s) {
            None => forall|j: int| 0 <= j < s.len() ==> (#[trigger] s[j]) != 'e' && s[j] != 'E',
            Some(i) => 0 <= i < s.len() && (s[i] == 'e' || s[i] == 'E') && forall|j: int|
                0 <= j < i ==> (#[trigger] s[j]) != 'e' && s[j] != 'E',
        },
    decreases s.len(),
{
    if s.len() > 0 && !(s[0] == 'e' || s[0] == 'E') {
        lemma_find_exp(s.drop_first());
        assert forall|j: int| 1 <= j < s.len() implies (#[trigger] s[j]) == s.drop_first()[j - 1] by {
        }
    }
}

/// Dropping a fully-whitespace prefix is exactly what [`trim_front`] does.
pub proof fn lemma_trim_front_skip(s: Seq<char>, lo: int)
    requires
        0 <= lo <= s.len(),
        forall|j: int| 0 <= j < lo ==> is_ws(#[trigger] s[j]),
        lo < s.len() ==> !is_ws(s[lo]),
    ensures
        trim_front(s) == s.skip(lo),
    decreases lo,
{
    if lo == 0 {
        assert(s.skip(0) =~= s);
    } else {
        assert(is_ws(s[0]));
        lemma_trim_front_skip(s.drop_first(), lo - 1);
        assert(s.drop_first().skip(lo - 1) =~= s.skip(lo));
    }
}

/// Dropping a fully-whitespace suffix is exactly what [`trim_back`] does.
pub proof fn lemma_trim_back_take(s: Seq<char>, hi: int)
    requires
        0 <= hi <= s.len(),
        forall|j: int| hi <= j < s.len() ==> is_ws(#[trigger] s[j]),
        hi > 0 ==> !is_ws(s[hi - 1]),
    ensures
        trim_back(s) == s.take(hi),
    decreases s.len() - hi,
{
    if hi == s.len() {
        assert(s.take(hi) =~= s);
    } else {
        assert(is_ws(s.last()));
        lemma_trim_back_take(s.drop_last(), hi);
        assert(s.drop_last().take(hi) =~= s.take(hi));
    }
}

/// Trimming yields exactly the subrange between the whitespace margins.
pub proof fn lemma_trim_is(s: Seq<char>, lo: int, hi: int)
    requires
        0 <= lo <= hi <= s.len(),
        forall|j: int| 0 <= j < lo ==> is_ws(#[trigger] s[j]),
        forall|j: int| hi <= j < s.len() ==> is_ws(#[trigger] s[j]),
        lo < hi ==> !is_ws(s[lo]) && !is_ws(s[hi - 1]),
        lo == hi ==> lo == s.len(),
    ensures
        trim(s) == s.subrange(lo, hi),
{
    if lo == hi {
        lemma_trim_front_skip(s, lo);
        assert(trim_front(s) =~= Seq::<char>::empty());
        assert(s.subrange(lo, hi) =~= Seq::<char>::empty());
    } else {
        lemma_trim_front_skip(s, lo);
        let t = s.skip(lo);
        lemma_trim_back_take(t, hi - lo);
        assert(t.take(hi - lo) =~= s.subrange(lo, hi));
    }
}

/// Trimming never lengthens text.
pub proof fn lemma_trim_front_len(s: Seq<char>)
    ensures
        trim_front(s).len() <= s.len(),
    decreases s.len(),
{
    if s.len() > 0 && is_ws(s[0]) {
        lemma_trim_front_len(s.drop_first());
    }
}

/// Trimming never lengthens text.
pub proof fn lemma_trim_back_len(s: Seq<char>)
    ensures
        trim_back(s).len() <= s.len(),
    decreases s.len(),
{
    if s.len() > 0 && is_ws(s.last()) {
        lemma_trim_back_len(s.drop_last());
    }
}

/// Trimming never lengthens text.
pub proof fn lemma_trim_len(s: Seq<char>)
    ensures
        trim(s).len() <= s.len(),
{
    lemma_trim_front_len(s);
    lemma_trim_back_len(trim_front(s));
}

/// Text with no whitespace at either end trims to itself.
pub proof fn lemma_trim_id(s: Seq<char>)
    requires
        s.len() > 0,
        !is_ws(s[0]),
        !is_ws(s.last()),
    ensures
        trim(s) == s,
{
    assert(trim_front(s) == s);
    assert(trim_back(s) == s);
}

} // verus!
