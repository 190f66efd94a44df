//! The value model and its tokenizer, parser and serializer.
//!
//! [`Types`] is the tagged union of decoded values.  [`Flag`] is the
//! lexer's mode: one mode per delimited value shape plus a plain mode.
//! Parsing and formatting are verified against the grammar in
//! [`crate::model`].

use vstd::prelude::*;

use crate::errors::{ParseError, TypeMismatch};
use crate::model::{
    lemma_lex_token_lens, lemma_trim_len, lex_init, lex_run, lex_spec, parse_value_spec,
    spec_start, LexSt, Val,
};
use crate::text::{chars_of, copy_range, is_ws_char, string_of, trim_vec};

verus! {

/// A decoded configuration value.
///
/// `Number` holds the decimal literal text exactly as it stood between its
/// `*` delimiters; constructors only admit text that satisfies the float
/// literal grammar, so the numeric reading is never ambiguous.
#[derive(Debug, PartialEq)]
pub enum Types {
    Text(String),
    Number(String),
    List(Vec<Types>),
    Group(Vec<(String, Types)>),
}

/// The lexer's scanning mode: inside one of the four delimited shapes, or
/// in plain mode between tokens.
#[derive(Debug, Clone, Copy, PartialEq, Eq)]
pub enum Flag {
    Text,
    Number,
    List,
    Group,
    Normal,
}

impl Flag {
    /// The delimiter pair of quoted text.
    pub fn string_delimiters() -> (r: (char, char))
        ensures
            r == ('\'', '\''),
    {
        ('\'', '\'')
    }

    /// The delimiter pair of numeric literals.
    pub fn number_delimiters() -> (r: (char, char))
        ensures
            r == ('*', '*'),
    {
        ('*', '*')
    }

    /// The delimiter pair of lists.
    pub fn vec_delimiters() -> (r: (char, char))
        ensures
            r == ('[', ']'),
    {
        ('[', ']')
    }

    /// The delimiter pair of groups.
    pub fn map_delimiters() -> (r: (char, char))
        ensures
            r == ('{', '}'),
    {
        ('{', '}')
    }

    /// The delimiter pair of this mode; plain mode has none.
    pub fn delimiters(&self) -> (r: (char, char))
        ensures
            r == match *self {
                Flag::Text => ('\'', '\''),
                Flag::Number => ('*', '*'),
                Flag::List => ('[', ']'),
                Flag::Group => ('{', '}'),
                Flag::Normal => ('\0', '\0'),
            },
    {
        match self {
            Flag::Text => Self::string_delimiters(),
            Flag::Number => Self::number_delimiters(),
            Flag::List => Self::vec_delimiters(),
            Flag::Group => Self::map_delimiters(),
            Flag::Normal => ('\0', '\0'),
        }
    }

    /// The mode that an opening character starts from plain mode.
    pub fn start(ch: char) -> (f: Flag)
        ensures
            f == spec_start(ch),
    {
        match ch {
            '\'' => Flag::Text,
            '[' => Flag::List,
            '{' => Flag::Group,
            '*' => Flag::Number,
            _ => Flag::Normal,
        }
    }
}

/// The abstract value of a `Types`, mapping every string to its character
/// sequence.
pub open spec fn val_of(t: Types) -> Val
    decreases t, 0int,
{
    match t {
        Types::Text(s) => Val::Text(s@),
        Types::Number(s) => Val::Number(s@),
        Types::List(v) => Val::List(vals_from(v@, 0)),
        Types::Group(g) => Val::Group(entries_from(g@, 0)),
    }
}

pub open spec fn vals_from(ts: Seq<Types>, i: int) -> Seq<Val>
    decreases ts, ts.len() - i,
{
    if i < 0 || i >= ts.len() {
        Seq::empty()
    } else {
        seq![val_of(ts[i])] + vals_from(ts, i + 1)
    }
}

pub open spec fn entries_from(ps: Seq<(String, Types)>, i: int) -> Seq<(Seq<char>, Val)>
    decreases ps, ps.len() - i,
{
    if i < 0 || i >= ps.len() {
        Seq::empty()
    } else {
        seq![(ps[i].0@, val_of(ps[i].1))] + entries_from(ps, i + 1)
    }
}

impl View for Types {
    type V = Val;

    open spec fn view(&self) -> Val {
        val_of(*self)
    }
}

/// The abstract value of a parse result.
pub open spec fn res_view(r: Result<Types, ParseError>) -> Result<Val, ParseError> {
    match r {
        Ok(t) => Ok(t@),
        Err(e) => Err(e),
    }
}

/// The views of a vector of token character-vectors.
pub open spec fn toks_view(ts: Seq<Vec<char>>) -> Seq<Seq<char>> {
    Seq::new(ts.len(), |j: int| ts[j]@)
}

/// Index form of [`vals_from`]: element `k` is the view of `ts[i + k]`.
pub proof fn lemma_vals_from(ts: Seq<Types>, i: int)
    requires
        0 <= i <= ts.len(),
    ensures
        vals_from(ts, i).len() == ts.len() - i,
        forall|k: int| 0 <= k < ts.len() - i ==> vals_from(ts, i)[k] == val_of(ts[i + k]),
    decreases ts.len() - i,
{
    if i < ts.len() {
        lemma_vals_from(ts, i + 1);
    }
}

/// Index form of [`entries_from`]: entry `k` is the viewed pair `ps[i + k]`.
pub proof fn lemma_entries_from(ps: Seq<(String, Types)>, i: int)
    requires
        0 <= i <= ps.len(),
    ensures
        entries_from(ps, i).len() == ps.len() - i,
        forall|k: int|
            0 <= k < ps.len() - i ==> entries_from(ps, i)[k] == (ps[i + k].0@, val_of(ps[i + k].1)),
    decreases ps.len() - i,
{
    if i < ps.len() {
        lemma_entries_from(ps, i + 1);
    }
}

/// Tokenize the interior of a composite value with separator `sep`,
/// exactly as [`lex_spec`] does; input ending inside an open delimiter is
/// an unterminated-delimiter error.
fn lex(interior: &Vec<char>, sep: char) -> (r: Result<Vec<Vec<char>>, ParseError>)
    ensures
        match lex_spec(interior@, sep) {
            None => r == Err::<Vec<Vec<char>>, ParseError>(ParseError::UnterminatedDelimiter),
            Some(ts) => r matches Ok(v) && toks_view(v@) == ts,
        },
{
    let n = interior.len();
    let mut flag = Flag::Normal;
    let mut depth: usize = 0;
    let mut buf: Vec<char> = Vec::new();
    let mut toks: Vec<Vec<char>> = Vec::new();
    let mut i: usize = 0;
    proof {
        assert(interior@.take(0) =~= Seq::<char>::empty());
        assert(toks_view(toks@) =~= Seq::<Seq<char>>::empty());
    }
    while i < n
        invariant
            i <= n,
            n == interior@.len(),
            depth <= i,
            (flag is List || flag is Group) ==> depth >= 1,
            (flag is Normal || flag is Text || flag is Number) ==> depth == 0,
            lex_run(lex_init(), interior@.take(i as int), sep) == (LexSt {
                flag,
                depth: depth as int,
                buf: buf@,
                toks: toks_view(toks@),
            }),
        decreases n - i,
    {
        let ghost st_old = LexSt { flag, depth: depth as int, buf: buf@, toks: toks_view(toks@) };
        let c = interior[i];
        proof {
            assert(interior@.take(i as int + 1).drop_last() =~= interior@.take(i as int));
            assert(interior@.take(i as int + 1).last() == interior@[i as int]);
        }
        match flag {
            Flag::Normal => {
                if is_ws_char(c) {
                    // skipped between tokens
                } else if c == sep {
                    toks.push(buf);
                    buf = Vec::new();
                    proof {
                        assert(toks_view(toks@) =~~= st_old.toks.push(st_old.buf));
                    }
                } else {
                    let f = Flag::start(c);
                    depth = match f {
                        Flag::List => 1,
                        Flag::Group => 1,
                        _ => 0,
                    };
                    flag = f;
                    buf.push(c);
                }
            },
            Flag::Text => {
                buf.push(c);
                if c == '\'' {
                    flag = Flag::Normal;
                }
            },
            Flag::Number => {
                buf.push(c);
                if c == '*' {
                    flag = Flag::Normal;
                }
            },
            Flag::List => {
                buf.push(c);
                if c == '[' {
                    depth = depth + 1;
                } else if c == ']' {
                    if depth == 1 {
                        depth = 0;
                        flag = Flag::Normal;
                    } else {
                        depth = depth - 1;
                    }
                }
            },
            Flag::Group => {
                buf.push(c);
                if c == '{' {
                    depth = depth + 1;
                } else if c == '}' {
                    if depth == 1 {
                        depth = 0;
                        flag = Flag::Normal;
                    } else {
                        depth = depth - 1;
                    }
                }
            },
        }
        i = i + 1;
    }
    proof {
        assert(interior@.take(n as int) =~= interior@);
    }
    match flag {
        Flag::Normal => {
            if buf.len() > 0 {
                let ghost old_toks = toks_view(toks@);
                let ghost old_buf = buf@;
                toks.push(buf);
                proof {
                    assert(toks_view(toks@) =~~= old_toks.push(old_buf));
                }
                Ok(toks)
            } else {
                Ok(toks)
            }
        },
        _ => Err(ParseError::UnterminatedDelimiter),
    }
}


/// Position of the first entry whose key equals `k`, if any.
pub(crate) fn find_key(m: &Vec<(String, Types)>, k: &String) -> (r: Option<usize>)
    ensures
        match crate::model::first_key_idx(entries_from(m@, 0), k@, 0) {
            None => r is None,
            Some(p) => r matches Some(u) && u as int == p,
        },
{
    let ghost es = entries_from(m@, 0);
    let mut i: usize = 0;
    while i < m.len()
        invariant
            i <= m@.len(),
            es == entries_from(m@, 0),
            forall|j: int| 0 <= j < i ==> (#[trigger] m@[j].0@) != k@,
        decreases m@.len() - i,
    {
        if m[i].0.eq(k) {
            proof {
                lemma_entries_from(m@, 0);
                crate::model::lemma_first_key_idx(es, k@, 0);
                assert forall|j: int| 0 <= j < i implies (#[trigger] es[j].0) != k@ by {
                    assert(es[j].0 == m@[j].0@);
                }
                assert(es[i as int].0 == k@);
            }
            return Some(i);
        }
        i = i + 1;
    }
    proof {
        lemma_entries_from(m@, 0);
        crate::model::lemma_first_key_idx(es, k@, 0);
        assert forall|j: int| 0 <= j < es.len() implies (#[trigger] es[j].0) != k@ by {
            assert(es[j].0 == m@[j].0@);
        }
    }
    None
}

/// Replace the value under `k` in place, or append a new entry, exactly as
/// the model's [`crate::model::upsert`].
pub(crate) fn upsert_vec(m: Vec<(String, Types)>, k: String, v: Types) -> (r: Vec<(String, Types)>)
    ensures
        entries_from(r@, 0) == crate::model::upsert(entries_from(m@, 0), k@, v@),
{
    let ghost es0 = entries_from(m@, 0);
    let mut m = m;
    match find_key(&m, &k) {
        Some(i) => {
            let ghost m0 = m@;
            proof {
                crate::model::lemma_first_key_idx(es0, k@, 0);
                lemma_entries_from(m0, 0);
            }
            m.set(i, (k, v));
            proof {
                lemma_entries_from(m@, 0);
                assert(entries_from(m@, 0) =~= es0.update(i as int, (k@, v@)));
            }
            m
        },
        None => {
            let ghost m0 = m@;
            m.push((k, v));
            proof {
                lemma_entries_from(m0, 0);
                lemma_entries_from(m@, 0);
                assert(entries_from(m@, 0) =~= es0.push((k@, v@)));
            }
            m
        },
    }
}

/// Parse one value from its characters, exactly as [`parse_value_spec`].
fn parse_chars(s: &Vec<char>) -> (r: Result<Types, ParseError>)
    ensures
        res_view(r) == parse_value_spec(s@),
    decreases s@.len(), 1int, 0int,
{
    let t = trim_vec(s);
    let n = t.len();
    proof {
        lemma_trim_len(s@);
    }
    if n >= 2 && t[0] == '\'' && t[n - 1] == '\'' {
        let content = copy_range(&t, 1, n - 1);
        Ok(Types::Text(string_of(&content)))
    } else if n >= 2 && t[0] == '*' && t[n - 1] == '*' {
        let content = copy_range(&t, 1, n - 1);
        if crate::text::is_float_vec(&content) {
            Ok(Types::Number(string_of(&content)))
        } else {
            Err(ParseError::MalformedNumber)
        }
    } else if n >= 2 && t[0] == '[' && t[n - 1] == ']' {
        let interior = copy_range(&t, 1, n - 1);
        match lex(&interior, ',') {
            Err(e) => Err(e),
            Ok(toks) => {
                proof {
                    lemma_lex_token_lens(interior@, ',');
                    assert forall|j: int| 0 <= j < toks@.len() implies (#[trigger] toks@[j]@).len()
                        < s@.len() by {
                        assert(toks_view(toks@)[j] == toks@[j]@);
                    }
                }
                match parse_items(&toks, 0, Ghost(s@.len() as int)) {
                    Err(e) => Err(e),
                    Ok(items) => Ok(Types::List(items)),
                }
            },
        }
    } else if n >= 2 && t[0] == '{' && t[n - 1] == '}' {
        let interior = copy_range(&t, 1, n - 1);
        match lex(&interior, ';') {
            Err(e) => Err(e),
            Ok(toks) => {
                proof {
                    lemma_lex_token_lens(interior@, ';');
                    assert forall|j: int| 0 <= j < toks@.len() implies (#[trigger] toks@[j]@).len()
                        < s@.len() by {
                        assert(toks_view(toks@)[j] == toks@[j]@);
                    }
                }
                match parse_entries(&toks, 0, Vec::new(), Ghost(s@.len() as int)) {
                    Err(e) => Err(e),
                    Ok(es) => Ok(Types::Group(es)),
                }
            },
        }
    } else if n >= 1 && (t[0] == '\'' || t[0] == '*' || t[0] == '[' || t[0] == '{') {
        Err(ParseError::UnterminatedDelimiter)
    } else {
        Ok(Types::Text(string_of(&t)))
    }
}

/// Parse the list tokens from index `i` on, exactly as
/// [`crate::model::parse_items_spec`].
fn parse_items(toks: &Vec<Vec<char>>, i: usize, bound: Ghost<int>) -> (r: Result<
    Vec<Types>,
    ParseError,
>)
    requires
        i <= toks@.len(),
        0 <= bound@,
        forall|j: int| 0 <= j < toks@.len() ==> (#[trigger] toks@[j]@).len() < bound@,
    ensures
        match crate::model::parse_items_spec(bound@, toks_view(toks@), i as int) {
            Ok(items) => r matches Ok(v) && vals_from(v@, 0) == items,
            Err(e) => r == Err::<Vec<Types>, ParseError>(e),
        },
    decreases bound@, 0int, toks@.len() - i,
{
    if i == toks.len() {
        let r: Vec<Types> = Vec::new();
        proof {
            assert(vals_from(r@, 0) =~= Seq::<Val>::empty());
        }
        return Ok(r);
    }
    match parse_chars(&toks[i]) {
        Err(e) => Err(e),
        Ok(v) => match parse_items(toks, i + 1, bound) {
            Err(e) => Err(e),
            Ok(rest) => {
                let ghost rest0 = rest@;
                let mut rest = rest;
                rest.insert(0, v);
                proof {
                    lemma_vals_from(rest0, 0);
                    lemma_vals_from(rest@, 0);
                    assert(vals_from(rest@, 0) =~= seq![rest@[0]@] + vals_from(rest0, 0));
                }
                Ok(rest)
            },
        },
    }
}

/// Parse the group tokens from index `i` on into `acc`, exactly as
/// [`crate::model::parse_entries_spec`].
fn parse_entries(
    toks: &Vec<Vec<char>>,
    i: usize,
    acc: Vec<(String, Types)>,
    bound: Ghost<int>,
) -> (r: Result<Vec<(String, Types)>, ParseError>)
    requires
        i <= toks@.len(),
        0 <= bound@,
        forall|j: int| 0 <= j < toks@.len() ==> (#[trigger] toks@[j]@).len() < bound@,
    ensures
        match crate::model::parse_entries_spec(
            bound@,
            toks_view(toks@),
            i as int,
            entries_from(acc@, 0),
        ) {
            Ok(es) => r matches Ok(v) && entries_from(v@, 0) == es,
            Err(e) => r == Err::<Vec<(String, Types)>, ParseError>(e),
        },
    decreases bound@, 0int, toks@.len() - i,
{
    if i == toks.len() {
        return Ok(acc);
    }
    let tok = &toks[i];
    if tok.len() == 0 {
        return parse_entries(toks, i + 1, acc, bound);
    }
    match crate::text::find_char_range(tok, 0, tok.len(), ':') {
        None => {
            proof {
                assert(tok@.subrange(0, tok@.len() as int) =~= tok@);
            }
            Err(ParseError::MalformedEntry)
        },
        Some(ci) => {
            proof {
                assert(tok@.subrange(0, tok@.len() as int) =~= tok@);
                crate::model::lemma_find_char(tok@, ':');
            }
            let kv = copy_range(tok, 0, ci);
            let key = string_of(&kv);
            let vtv = copy_range(tok, ci + 1, tok.len());
            proof {
                assert(kv@ =~= tok@.take(ci as int));
                assert(vtv@ =~= tok@.skip(ci as int + 1));
            }
            match parse_chars(&vtv) {
                Err(e) => Err(e),
                Ok(v) => {
                    let acc2 = upsert_vec(acc, key, v);
                    parse_entries(toks, i + 1, acc2, bound)
                },
            }
        },
    }
}

impl Types {
    /// Parse one value from text; the explicit-error form of the value
    /// grammar in [`parse_value_spec`].
    pub fn from(text: String) -> (r: Result<Types, ParseError>)
        ensures
            res_view(r) == parse_value_spec(text@),
    {
        let cs = chars_of(text.as_str());
        parse_chars(&cs)
    }
}


/// The `,`-separated formatted list body from element `i` on, exactly as
/// [`crate::model::format_items_from`].
fn format_items(items: &Vec<Types>, i: usize) -> (r: String)
    requires
        i <= items@.len(),
    ensures
        r@ == crate::model::format_items_from(vals_from(items@, 0), i as int),
    decreases items@, 2int, items@.len() - i,
{
    let n = items.len();
    proof {
        lemma_vals_from(items@, 0);
    }
    if i >= n {
        String::new()
    } else if i == n - 1 {
        items[i].format()
    } else {
        let mut r = items[i].format();
        r.append(",");
        let rest = format_items(items, i + 1);
        r.append(rest.as_str());
        proof {
            reveal_strlit(",");
            assert(","@ =~= seq![',']);
        }
        r
    }
}

/// The formatted group body from entry `i` on, each entry closed by `;`,
/// exactly as [`crate::model::format_entries_from`].
fn format_entries(gs: &Vec<(String, Types)>, i: usize) -> (r: String)
    requires
        i <= gs@.len(),
    ensures
        r@ == crate::model::format_entries_from(entries_from(gs@, 0), i as int),
    decreases gs@, 2int, gs@.len() - i,
{
    let n = gs.len();
    proof {
        lemma_entries_from(gs@, 0);
    }
    if i >= n {
        String::new()
    } else {
        let mut r = String::new();
        r.append(gs[i].0.as_str());
        r.append(":");
        let f = gs[i].1.format();
        r.append(f.as_str());
        r.append(";");
        let rest = format_entries(gs, i + 1);
        r.append(rest.as_str());
        proof {
            reveal_strlit(":");
            reveal_strlit(";");
            assert(":"@ =~= seq![':']);
            assert(";"@ =~= seq![';']);
        }
        r
    }
}

impl Types {
    /// Canonical text of a text value: the content between two quotes.
    pub fn format_string(typ: &Types) -> (r: String)
        requires
            typ@ is Text,
        ensures
            r@ == crate::model::format_val(typ@),
        decreases *typ, 0int, 0int,
    {
        match typ {
            Types::Text(s) => {
                let mut r = String::new();
                r.append("'");
                r.append(s.as_str());
                r.append("'");
                proof {
                    reveal_strlit("'");
                    assert("'"@ =~= seq!['\'']);
                }
                r
            },
            _ => unreached(),
        }
    }

    /// Canonical text of a number value: the literal between two stars.
    pub fn format_number(typ: &Types) -> (r: String)
        requires
            typ@ is Number,
        ensures
            r@ == crate::model::format_val(typ@),
        decreases *typ, 0int, 0int,
    {
        match typ {
            Types::Number(s) => {
                let mut r = String::new();
                r.append("*");
                r.append(s.as_str());
                r.append("*");
                proof {
                    reveal_strlit("*");
                    assert("*"@ =~= seq!['*']);
                }
                r
            },
            _ => unreached(),
        }
    }

    /// Canonical text of a list value: bracketed, elements separated by
    /// `,`.
    pub fn format_vec(typ: &Types) -> (r: String)
        requires
            typ@ is List,
        ensures
            r@ == crate::model::format_val(typ@),
        decreases *typ, 0int, 0int,
    {
        match typ {
            Types::List(v) => {
                let mut r = String::new();
                r.append("[");
                let body = format_items(v, 0);
                r.append(body.as_str());
                r.append("]");
                proof {
                    reveal_strlit("[");
                    reveal_strlit("]");
                    assert("["@ =~= seq!['[']);
                    assert("]"@ =~= seq![']']);
                }
                r
            },
            _ => unreached(),
        }
    }

    /// Canonical text of a group value: braced, every entry closed by
    /// `;`.
    pub fn format_map(typ: &Types) -> (r: String)
        requires
            typ@ is Group,
        ensures
            r@ == crate::model::format_val(typ@),
        decreases *typ, 0int, 0int,
    {
        match typ {
            Types::Group(g) => {
                let mut r = String::new();
                r.append("{");
                let body = format_entries(g, 0);
                r.append(body.as_str());
                r.append("}");
                proof {
                    reveal_strlit("{");
                    reveal_strlit("}");
                    assert("{"@ =~= seq!['{']);
                    assert("}"@ =~= seq!['}']);
                }
                r
            },
            _ => unreached(),
        }
    }

    /// Canonical text of this value, per variant.
    pub fn format(&self) -> (r: String)
        ensures
            r@ == crate::model::format_val(self@),
        decreases *self, 1int, 0int,
    {
        match self {
            Types::Text(_) => Self::format_string(self),
            Types::List(_) => Self::format_vec(self),
            Types::Group(_) => Self::format_map(self),
            Types::Number(_) => Self::format_number(self),
        }
    }

    /// A deep copy with the same abstract value.
    pub fn duplicate(&self) -> (r: Types)
        ensures
            r@ == self@,
        decreases *self, 0int, 0int,
    {
        match self {
            Types::Text(s) => Types::Text(s.clone()),
            Types::Number(s) => Types::Number(s.clone()),
            Types::List(v) => {
                let items = duplicate_items(v, 0);
                proof {
                    assert(vals_from(v@, 0) == vals_from(v@, 0int));
                }
                Types::List(items)
            },
            Types::Group(g) => Types::Group(duplicate_entries(g, 0)),
        }
    }
}

/// Deep copies of the elements from index `i` on.
fn duplicate_items(items: &Vec<Types>, i: usize) -> (r: Vec<Types>)
    requires
        i <= items@.len(),
    ensures
        vals_from(r@, 0) == vals_from(items@, i as int),
    decreases items@, 1int, items@.len() - i,
{
    if i == items.len() {
        let r: Vec<Types> = Vec::new();
        proof {
            assert(vals_from(r@, 0) =~= vals_from(items@, i as int));
        }
        r
    } else {
        let first = items[i].duplicate();
        let mut rest = duplicate_items(items, i + 1);
        let ghost rest0 = rest@;
        rest.insert(0, first);
        proof {
            lemma_vals_from(rest0, 0);
            lemma_vals_from(rest@, 0);
            lemma_vals_from(items@, i as int);
            assert(vals_from(rest@, 0) =~= vals_from(items@, i as int));
        }
        rest
    }
}

/// Deep copies of the entries from index `i` on.
fn duplicate_entries(gs: &Vec<(String, Types)>, i: usize) -> (r: Vec<(String, Types)>)
    requires
        i <= gs@.len(),
    ensures
        entries_from(r@, 0) == entries_from(gs@, i as int),
    decreases gs@, 1int, gs@.len() - i,
{
    if i == gs.len() {
        let r: Vec<(String, Types)> = Vec::new();
        proof {
            assert(entries_from(r@, 0) =~= entries_from(gs@, i as int));
        }
        r
    } else {
        let key = gs[i].0.clone();
        let val = gs[i].1.duplicate();
        let mut rest = duplicate_entries(gs, i + 1);
        let ghost rest0 = rest@;
        rest.insert(0, (key, val));
        proof {
            lemma_entries_from(rest0, 0);
            lemma_entries_from(rest@, 0);
            lemma_entries_from(gs@, i as int);
            assert(entries_from(rest@, 0) =~= entries_from(gs@, i as int));
        }
        rest
    }
}

impl Types {
    /// The text content, or a mismatch error on any other variant.
    pub fn get_string(&self) -> (r: Result<String, TypeMismatch>)
        ensures
            match r {
                Ok(s) => self@ == Val::Text(s@),
                Err(_) => !(self@ is Text),
            },
    {
        match self {
            Types::Text(s) => Ok(s.clone()),
            _ => Err(TypeMismatch),
        }
    }

    /// The numeric literal text, or a mismatch error on any other variant.
    pub fn get_number(&self) -> (r: Result<String, TypeMismatch>)
        ensures
            match r {
                Ok(s) => self@ == Val::Number(s@),
                Err(_) => !(self@ is Number),
            },
    {
        match self {
            Types::Number(s) => Ok(s.clone()),
            _ => Err(TypeMismatch),
        }
    }

    /// A copy of the elements, or a mismatch error on any other variant.
    pub fn get_vec(&self) -> (r: Result<Vec<Types>, TypeMismatch>)
        ensures
            match r {
                Ok(v) => self@ == Val::List(vals_from(v@, 0)),
                Err(_) => !(self@ is List),
            },
    {
        match self {
            Types::List(v) => Ok(duplicate_items(v, 0)),
            _ => Err(TypeMismatch),
        }
    }

    /// A copy of the entries, or a mismatch error on any other variant.
    pub fn get_map(&self) -> (r: Result<Vec<(String, Types)>, TypeMismatch>)
        ensures
            match r {
                Ok(g) => self@ == Val::Group(entries_from(g@, 0)),
                Err(_) => !(self@ is Group),
            },
    {
        match self {
            Types::Group(g) => Ok(duplicate_entries(g, 0)),
            _ => Err(TypeMismatch),
        }
    }
}


/// Trimmed text that opens and closes with a quote.
pub open spec fn is_string_spec(s: Seq<char>) -> bool {
    let t = crate::model::trim(s);
    t.len() > 0 && t[0] == '\'' && t.last() == '\''
}

/// Trimmed text that opens with `[` and closes with `]`.
pub open spec fn is_vec_spec(s: Seq<char>) -> bool {
    let t = crate::model::trim(s);
    t.len() > 0 && t[0] == '[' && t.last() == ']'
}

/// Trimmed text that opens with `{` and closes with `}`.
pub open spec fn is_map_spec(s: Seq<char>) -> bool {
    let t = crate::model::trim(s);
    t.len() > 0 && t[0] == '{' && t.last() == '}'
}

/// Trimmed text that is a starred decimal float literal.
pub open spec fn is_num_spec(s: Seq<char>) -> bool {
    let t = crate::model::trim(s);
    t.len() >= 2 && t[0] == '*' && t.last() == '*' && crate::model::is_float_literal(
        t.subrange(1, t.len() - 1),
    )
}

/// What [`Types::from_value`] decodes: bracketed and braced text through
/// the full grammar, a bare float literal as a number, and anything else
/// as bare text kept verbatim.
pub open spec fn from_value_spec(s: Seq<char>) -> Result<Val, ParseError> {
    if is_map_spec(s) || is_vec_spec(s) {
        parse_value_spec(s)
    } else if crate::model::is_float_literal(s) {
        Ok(Val::Number(s))
    } else {
        Ok(Val::Text(s))
    }
}

impl Types {
    /// Whether the trimmed text is quote-delimited.
    pub fn is_string(string: &String) -> (r: bool)
        ensures
            r == is_string_spec(string@),
    {
        let cs = chars_of(string.as_str());
        let t = trim_vec(&cs);
        let n = t.len();
        n > 0 && t[0] == '\'' && t[n - 1] == '\''
    }

    /// Whether the trimmed text is bracket-delimited.
    pub fn is_vec(string: &String) -> (r: bool)
        ensures
            r == is_vec_spec(string@),
    {
        let cs = chars_of(string.as_str());
        let t = trim_vec(&cs);
        let n = t.len();
        n > 0 && t[0] == '[' && t[n - 1] == ']'
    }

    /// Whether the trimmed text is brace-delimited.
    pub fn is_map(string: &String) -> (r: bool)
        ensures
            r == is_map_spec(string@),
    {
        let cs = chars_of(string.as_str());
        let t = trim_vec(&cs);
        let n = t.len();
        n > 0 && t[0] == '{' && t[n - 1] == '}'
    }

    /// Whether the trimmed text is a star-delimited float literal.
    pub fn is_num(string: &String) -> (r: bool)
        ensures
            r == is_num_spec(string@),
    {
        let cs = chars_of(string.as_str());
        let t = trim_vec(&cs);
        let n = t.len();
        if n >= 2 && t[0] == '*' && t[n - 1] == '*' {
            let content = copy_range(&t, 1, n - 1);
            crate::text::is_float_vec(&content)
        } else {
            false
        }
    }

    /// Strip the quotes from trimmed quote-delimited text.
    pub fn into_string(string: String) -> (r: Option<Types>)
        requires
            is_string_spec(string@),
            crate::model::trim(string@).len() >= 2,
        ensures
            r matches Some(t) && t@ == Val::Text(
                crate::model::trim(string@).subrange(
                    1,
                    crate::model::trim(string@).len() - 1,
                ),
            ),
    {
        let cs = chars_of(string.as_str());
        let t = trim_vec(&cs);
        let n = t.len();
        let content = copy_range(&t, 1, n - 1);
        Some(Types::Text(string_of(&content)))
    }

    /// Strip the stars from a trimmed starred float literal.
    pub fn into_number(string: String) -> (r: Option<Types>)
        requires
            is_num_spec(string@),
        ensures
            r matches Some(t) && t@ == Val::Number(
                crate::model::trim(string@).subrange(
                    1,
                    crate::model::trim(string@).len() - 1,
                ),
            ),
    {
        let cs = chars_of(string.as_str());
        let t = trim_vec(&cs);
        let n = t.len();
        let content = copy_range(&t, 1, n - 1);
        Some(Types::Number(string_of(&content)))
    }

    /// Decode bracket-delimited text as a list through the value grammar.
    pub fn into_vec(string: String) -> (r: Result<Types, ParseError>)
        requires
            is_vec_spec(string@),
        ensures
            res_view(r) == parse_value_spec(string@),
    {
        let cs = chars_of(string.as_str());
        parse_chars(&cs)
    }

    /// Decode brace-delimited text as a group through the value grammar.
    pub fn into_map(string: String) -> (r: Result<Types, ParseError>)
        requires
            is_map_spec(string@),
        ensures
            res_view(r) == parse_value_spec(string@),
    {
        let cs = chars_of(string.as_str());
        parse_chars(&cs)
    }

    /// Decode text as entered by a user: composites through the grammar,
    /// bare float literals as numbers, anything else as verbatim text.
    pub fn from_value(string: String) -> (r: Result<Types, ParseError>)
        ensures
            res_view(r) == from_value_spec(string@),
    {
        if Self::is_map(&string) || Self::is_vec(&string) {
            let cs = chars_of(string.as_str());
            parse_chars(&cs)
        } else {
            let cs = chars_of(string.as_str());
            if crate::text::is_float_vec(&cs) {
                Ok(Types::Number(string))
            } else {
                Ok(Types::Text(string))
            }
        }
    }
}

/// Split `v` into lines at each `\n`, from index `start` on, exactly as
/// [`crate::model::split_lines`].
fn split_lines_vec(v: &Vec<char>, start: usize) -> (r: Vec<Vec<char>>)
    requires
        start <= v@.len(),
    ensures
        toks_view(r@) == crate::model::split_lines(v@.skip(start as int)),
    decreases v@.len() - start,
{
    let ghost tail = v@.skip(start as int);
    match crate::text::find_char_range(v, start, v.len(), '\n') {
        None => {
            proof {
                assert(v@.subrange(start as int, v@.len() as int) =~= tail);
            }
            let line = copy_range(v, start, v.len());
            let mut r: Vec<Vec<char>> = Vec::new();
            r.push(line);
            proof {
                assert(toks_view(r@) =~~= seq![tail]);
            }
            r
        },
        Some(i) => {
            proof {
                assert(v@.subrange(start as int, v@.len() as int) =~= tail);
                crate::model::lemma_find_char(tail, '\n');
                assert(tail.take(i as int - start) =~= v@.subrange(start as int, i as int));
                assert(tail.skip(i as int - start + 1) =~= v@.skip(i as int + 1));
            }
            let line = copy_range(v, start, i);
            let mut rest = split_lines_vec(v, i + 1);
            let ghost rest0 = toks_view(rest@);
            rest.insert(0, line);
            proof {
                assert(toks_view(rest@) =~~= seq![v@.subrange(start as int, i as int)] + rest0);
            }
            rest
        },
    }
}

/// Fold the store lines from line `i` on into `acc`, exactly as
/// [`crate::model::parse_lines_spec`].
fn parse_lines(lines: &Vec<Vec<char>>, i: usize, acc: Vec<(String, Types)>) -> (r: Result<
    Vec<(String, Types)>,
    ParseError,
>)
    requires
        i <= lines@.len(),
    ensures
        match crate::model::parse_lines_spec(toks_view(lines@), i as int, entries_from(acc@, 0)) {
            Ok(es) => r matches Ok(v) && entries_from(v@, 0) == es,
            Err(e) => r == Err::<Vec<(String, Types)>, ParseError>(e),
        },
    decreases lines@.len() - i,
{
    if i == lines.len() {
        return Ok(acc);
    }
    let t = trim_vec(&lines[i]);
    proof {
        assert(toks_view(lines@)[i as int] == lines@[i as int]@);
    }
    match crate::text::find_char_range(&t, 0, t.len(), ':') {
        None => {
            proof {
                assert(t@.subrange(0, t@.len() as int) =~= t@);
            }
            parse_lines(lines, i + 1, acc)
        },
        Some(ci) => {
            proof {
                assert(t@.subrange(0, t@.len() as int) =~= t@);
                crate::model::lemma_find_char(t@, ':');
            }
            let kv = copy_range(&t, 0, ci);
            let key = string_of(&kv);
            let vtv = copy_range(&t, ci + 1, t.len());
            proof {
                assert(kv@ =~= t@.take(ci as int));
                assert(vtv@ =~= t@.skip(ci as int + 1));
            }
            match parse_chars(&vtv) {
                Err(e) => Err(e),
                Ok(v) => {
                    let acc2 = upsert_vec(acc, key, v);
                    parse_lines(lines, i + 1, acc2)
                },
            }
        },
    }
}

/// Parse whole store text into its entries: one `key:value` per line,
/// lines without `:` skipped, later duplicate keys overwriting earlier
/// ones, exactly as [`crate::model::parse_store_spec`].
pub fn serialize(text: String) -> (r: Result<Vec<(String, Types)>, ParseError>)
    ensures
        match crate::model::parse_store_spec(text@) {
            Ok(es) => r matches Ok(v) && entries_from(v@, 0) == es,
            Err(e) => r == Err::<Vec<(String, Types)>, ParseError>(e),
        },
{
    let cs = chars_of(text.as_str());
    let lines = split_lines_vec(&cs, 0);
    proof {
        assert(cs@.skip(0) =~= cs@);
        assert(entries_from(Seq::<(String, Types)>::empty(), 0) =~= Seq::<
            (Seq<char>, Val),
        >::empty());
    }
    parse_lines(&lines, 0, Vec::new())
}

/// The store line for entry `i` and everything after it.
fn deserialize_from(map: &Vec<(String, Types)>, i: usize) -> (r: String)
    requires
        i <= map@.len(),
    ensures
        r@ == crate::model::format_store_from(entries_from(map@, 0), i as int),
    decreases map@.len() - i,
{
    proof {
        lemma_entries_from(map@, 0);
    }
    if i >= map.len() {
        String::new()
    } else {
        let mut r = String::new();
        r.append(map[i].0.as_str());
        r.append(":");
        let f = map[i].1.format();
        r.append(f.as_str());
        proof {
            reveal_strlit(":");
            assert(":"@ =~= seq![':']);
        }
        if i + 1 < map.len() {
            r.append("\n");
            let rest = deserialize_from(map, i + 1);
            r.append(rest.as_str());
            proof {
                reveal_strlit("\n");
                assert("\n"@ =~= seq!['\n']);
            }
        }
        r
    }
}

/// Render the entries back to store text, one `key:value` line per entry,
/// joined with `\n`, exactly as [`crate::model::format_store_spec`].
pub fn deserialize(map: Vec<(String, Types)>) -> (r: String)
    ensures
        r@ == crate::model::format_store_spec(entries_from(map@, 0)),
{
    deserialize_from(&map, 0)
}

} // verus!
