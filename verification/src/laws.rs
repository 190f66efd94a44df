//! The round-trip laws of the format.
//!
//! [`lemma_scalar_round_trip`]: parsing the canonical text of any text
//! value, or of any number holding a float literal, yields the value
//! back.  [`lemma_round_trip`]: the same for lists and groups whose
//! embedded text and keys stay clear of the delimiter characters.
//! [`lemma_set_then_get`]: writing a key into store text and reading it
//! back through the backing text yields the written value.

use vstd::prelude::*;

use crate::config::Flag;
use crate::errors::ParseError;
use crate::model::{
    embeddable, embeddable_entries_from, embeddable_items_from, find_char, find_exp,
    first_key_idx, format_entries_from, format_entry, format_items_from, format_store_from,
    format_store_spec, format_val, get_spec, is_digit, is_float_literal, is_mantissa, is_ws,
    key_ok, keys_distinct, lemma_find_char, lemma_find_exp, lemma_first_key_idx,
    lemma_lex_run_append, lemma_trim_id, lex_init, lex_run, lex_spec, lookup, no_newlines,
    no_newlines_entries_from, no_newlines_items_from, parse_entries_spec, parse_items_spec,
    parse_lines_spec, parse_store_spec, parse_value_spec, set_spec, split_lines, spec_start,
    store_key_ok, strip_sign, trim, upsert, LexSt, Val,
};

verus! {

// ---------------------------------------------------------------------------
// Character census
// ---------------------------------------------------------------------------

/// A character that may stand inside a float literal: never a delimiter,
/// a separator concern, or whitespace.
spec fn lit_char_ok(c: char) -> bool {
    !(c == '\'' || c == '*' || c == '[' || c == ']' || c == '{' || c == '}' || is_ws(c))
}

/// Characters admissible in a word checked by the literal grammar.
proof fn lemma_float_literal_chars(s: Seq<char>)
    requires
        is_float_literal(s),
    ensures
        forall|i: int| 0 <= i < s.len() ==> lit_char_ok(#[trigger] s[i]),
{
    let b = strip_sign(s);
    let off: int = if s.len() > 0 && (s[0] == '+' || s[0] == '-') {
        1
    } else {
        0
    };
    assert(b =~= s.skip(off));
    assert forall|i: int| 0 <= i < s.len() implies lit_char_ok(#[trigger] s[i]) by {
        if i < off {
            assert(s[i] == '+' || s[i] == '-');
        } else {
            let bi = i - off;
            assert(b[bi] == s[i]);
            lemma_word_chars(b, bi);
        }
    }
}

/// One character of the unsigned body of a literal is admissible.
proof fn lemma_word_chars(b: Seq<char>, bi: int)
    requires
        0 <= bi < b.len(),
        crate::model::is_inf_word(b) || crate::model::is_infinity_word(b)
            || crate::model::is_nan_word(b) || (match find_exp(b) {
            None => is_mantissa(b),
            Some(e) => is_mantissa(b.take(e)) && crate::model::is_exponent(b.skip(e + 1)),
        }),
    ensures
        lit_char_ok(b[bi]),
{
    if crate::model::is_inf_word(b) || crate::model::is_infinity_word(b)
        || crate::model::is_nan_word(b) {
    } else {
        match find_exp(b) {
            None => {
                lemma_mantissa_chars(b, bi);
            },
            Some(e) => {
                lemma_find_exp(b);
                if bi < e {
                    assert(b.take(e)[bi] == b[bi]);
                    lemma_mantissa_chars(b.take(e), bi);
                } else if bi == e {
                    assert(b[bi] == 'e' || b[bi] == 'E');
                } else {
                    let ex = b.skip(e + 1);
                    let d = strip_sign(ex);
                    let j = bi - e - 1;
                    assert(ex[j] == b[bi]);
                    if ex.len() > 0 && (ex[0] == '+' || ex[0] == '-') {
                        if j == 0 {
                        } else {
                            assert(d[j - 1] == ex[j]);
                            assert(is_digit(ex[j]));
                        }
                    } else {
                        assert(d[j] == ex[j]);
                        assert(is_digit(ex[j]));
                    }
                }
            },
        }
    }
}

/// One character of a mantissa is a digit or the point.
proof fn lemma_mantissa_chars(m: Seq<char>, i: int)
    requires
        0 <= i < m.len(),
        is_mantissa(m),
    ensures
        is_digit(m[i]) || m[i] == '.',
{
    lemma_find_char(m, '.');
    match find_char(m, '.') {
        None => {},
        Some(d) => {
            if i < d {
                assert(m.take(d)[i] == m[i]);
            } else if i > d {
                assert(m.skip(d + 1)[i - d - 1] == m[i]);
            }
        },
    }
}

// ---------------------------------------------------------------------------
// Bracket balance
// ---------------------------------------------------------------------------

/// Count of `o` minus count of `c` in `s`.
spec fn bal(s: Seq<char>, o: char, c: char) -> int
    decreases s.len(),
{
    if s.len() == 0 {
        0
    } else {
        bal(s.drop_last(), o, c) + (if s.last() == o {
            1int
        } else if s.last() == c {
            -1int
        } else {
            0int
        })
    }
}

/// Balanced overall, and never negative on any prefix.
spec fn neutral(s: Seq<char>, o: char, c: char) -> bool {
    bal(s, o, c) == 0 && forall|i: int| 0 <= i <= s.len() ==> bal(#[trigger] s.take(i), o, c) >= 0
}

proof fn lemma_bal_concat(a: Seq<char>, b: Seq<char>, o: char, c: char)
    ensures
        bal(a + b, o, c) == bal(a, o, c) + bal(b, o, c),
    decreases b.len(),
{
    if b.len() == 0 {
        assert(a + b =~= a);
    } else {
        lemma_bal_concat(a, b.drop_last(), o, c);
        assert((a + b).drop_last() =~= a + b.drop_last());
        assert((a + b).last() == b.last());
    }
}

/// A string without either bracket has balance zero on every prefix.
proof fn lemma_bal_free(s: Seq<char>, o: char, c: char)
    requires
        forall|i: int| 0 <= i < s.len() ==> (#[trigger] s[i]) != o && s[i] != c,
    ensures
        bal(s, o, c) == 0,
    decreases s.len(),
{
    if s.len() > 0 {
        lemma_bal_free(s.drop_last(), o, c);
    }
}

/// A string without either bracket is neutral.
proof fn lemma_neutral_free(s: Seq<char>, o: char, c: char)
    requires
        forall|i: int| 0 <= i < s.len() ==> (#[trigger] s[i]) != o && s[i] != c,
    ensures
        neutral(s, o, c),
{
    lemma_bal_free(s, o, c);
    assert forall|i: int| 0 <= i <= s.len() implies bal(#[trigger] s.take(i), o, c) >= 0 by {
        lemma_bal_free(s.take(i), o, c);
    }
}

/// Neutral strings concatenate to a neutral string.
proof fn lemma_neutral_concat(a: Seq<char>, b: Seq<char>, o: char, c: char)
    requires
        neutral(a, o, c),
        neutral(b, o, c),
    ensures
        neutral(a + b, o, c),
{
    lemma_bal_concat(a, b, o, c);
    assert forall|i: int| 0 <= i <= (a + b).len() implies bal(#[trigger] (a + b).take(i), o, c)
        >= 0 by {
        if i <= a.len() {
            assert((a + b).take(i) =~= a.take(i));
        } else {
            assert((a + b).take(i) =~= a + b.take(i - a.len()));
            lemma_bal_concat(a, b.take(i - a.len()), o, c);
        }
    }
}

/// A neutral body wrapped in its own brackets is neutral.
proof fn lemma_neutral_wrap(body: Seq<char>, o: char, c: char)
    requires
        neutral(body, o, c),
        o != c,
    ensures
        neutral(seq![o] + body + seq![c], o, c),
{
    let w = seq![o] + body + seq![c];
    lemma_bal_concat(seq![o] + body, seq![c], o, c);
    lemma_bal_concat(seq![o], body, o, c);
    assert(bal(Seq::<char>::empty(), o, c) == 0);
    assert(seq![o].drop_last() =~= Seq::<char>::empty());
    assert(seq![c].drop_last() =~= Seq::<char>::empty());
    assert(bal(seq![o], o, c) == 1);
    assert(bal(seq![c], o, c) == -1);
    assert forall|i: int| 0 <= i <= w.len() implies bal(#[trigger] w.take(i), o, c) >= 0 by {
        if i == 0 {
            assert(w.take(0) =~= Seq::<char>::empty());
        } else if i <= 1 + body.len() {
            assert(w.take(i) =~= seq![o] + body.take(i - 1));
            lemma_bal_concat(seq![o], body.take(i - 1), o, c);
        } else {
            assert(w.take(i) =~= w);
        }
    }
}

/// A string wrapped in brackets the counting ignores stays neutral.
proof fn lemma_neutral_wrap_other(body: Seq<char>, w0: char, w1: char, o: char, c: char)
    requires
        neutral(body, o, c),
        w0 != o && w0 != c && w1 != o && w1 != c,
    ensures
        neutral(seq![w0] + body + seq![w1], o, c),
{
    let a = seq![w0];
    let b = seq![w1];
    lemma_neutral_free(a, o, c);
    lemma_neutral_free(b, o, c);
    lemma_neutral_concat(a, body, o, c);
    lemma_neutral_concat(a + body, b, o, c);
    assert(seq![w0] + body + seq![w1] =~= (a + body) + b);
}


// ---------------------------------------------------------------------------
// The shape of canonical text
// ---------------------------------------------------------------------------

/// The canonical text of an embeddable value: two or more characters,
/// opened and closed by its variant's delimiters, and bracket-neutral for
/// both bracket kinds.
proof fn lemma_format_shape(v: Val)
    requires
        embeddable(v),
    ensures
        format_val(v).len() >= 2,
        v is Text ==> format_val(v)[0] == '\'' && format_val(v).last() == '\'',
        v is Number ==> format_val(v)[0] == '*' && format_val(v).last() == '*',
        v is List ==> format_val(v)[0] == '[' && format_val(v).last() == ']',
        v is Group ==> format_val(v)[0] == '{' && format_val(v).last() == '}',
        neutral(format_val(v), '[', ']'),
        neutral(format_val(v), '{', '}'),
    decreases v, 0int,
{
    let f = format_val(v);
    match v {
        Val::Text(s) => {
            assert(f =~= seq!['\''] + s + seq!['\'']);
            assert forall|i: int| 0 <= i < f.len() implies (#[trigger] f[i]) != '[' && f[i] != ']'
                && f[i] != '{' && f[i] != '}' by {
                if 1 <= i < s.len() + 1 {
                    assert(f[i] == s[i - 1]);
                }
            }
            lemma_neutral_free(f, '[', ']');
            lemma_neutral_free(f, '{', '}');
        },
        Val::Number(s) => {
            assert(f =~= seq!['*'] + s + seq!['*']);
            lemma_float_literal_chars(s);
            assert forall|i: int| 0 <= i < f.len() implies (#[trigger] f[i]) != '[' && f[i] != ']'
                && f[i] != '{' && f[i] != '}' by {
                if 1 <= i < s.len() + 1 {
                    assert(f[i] == s[i - 1]);
                }
            }
            lemma_neutral_free(f, '[', ']');
            lemma_neutral_free(f, '{', '}');
        },
        Val::List(items) => {
            let body = format_items_from(items, 0);
            lemma_format_items_shape(items, 0);
            lemma_neutral_wrap(body, '[', ']');
            lemma_neutral_wrap_other(body, '[', ']', '{', '}');
            assert(f =~= seq!['['] + body + seq![']']);
            assert(f.last() == ']');
            assert(neutral(f, '[', ']')) by {
                assert(f == seq!['['] + body + seq![']']);
            }
            assert(neutral(f, '{', '}')) by {
                assert(f == seq!['['] + body + seq![']']);
            }
        },
        Val::Group(es) => {
            let body = format_entries_from(es, 0);
            lemma_format_entries_shape(es, 0);
            lemma_neutral_wrap(body, '{', '}');
            lemma_neutral_wrap_other(body, '{', '}', '[', ']');
            assert(f =~= seq!['{'] + body + seq!['}']);
            assert(f.last() == '}');
            assert(neutral(f, '{', '}')) by {
                assert(f == seq!['{'] + body + seq!['}']);
            }
            assert(neutral(f, '[', ']')) by {
                assert(f == seq!['{'] + body + seq!['}']);
            }
        },
    }
}

/// A list body from element `i` on is bracket-neutral for both kinds.
proof fn lemma_format_items_shape(items: Seq<Val>, i: int)
    requires
        0 <= i,
        embeddable_items_from(items, i),
    ensures
        neutral(format_items_from(items, i), '[', ']'),
        neutral(format_items_from(items, i), '{', '}'),
    decreases items, items.len() - i,
{
    if i >= items.len() {
        let e = Seq::<char>::empty();
        assert(forall|j: int| 0 <= j < e.len() ==> (#[trigger] e[j]) != '[' && e[j] != ']');
        lemma_neutral_free(e, '[', ']');
        lemma_neutral_free(e, '{', '}');
    } else if i == items.len() - 1 {
        lemma_format_shape(items[i]);
    } else {
        lemma_format_shape(items[i]);
        lemma_format_items_shape(items, i + 1);
        let sep = seq![','];
        assert(forall|j: int| 0 <= j < sep.len() ==> (#[trigger] sep[j]) == ',');
        lemma_neutral_free(sep, '[', ']');
        lemma_neutral_free(sep, '{', '}');
        let fi = format_val(items[i]);
        let rest = format_items_from(items, i + 1);
        lemma_neutral_concat(fi, sep, '[', ']');
        lemma_neutral_concat(fi + sep, rest, '[', ']');
        lemma_neutral_concat(fi, sep, '{', '}');
        lemma_neutral_concat(fi + sep, rest, '{', '}');
        assert(format_items_from(items, i) =~= (fi + sep) + rest);
    }
}

/// A group body from entry `i` on is bracket-neutral for both kinds.
proof fn lemma_format_entries_shape(es: Seq<(Seq<char>, Val)>, i: int)
    requires
        0 <= i,
        embeddable_entries_from(es, i),
    ensures
        neutral(format_entries_from(es, i), '[', ']'),
        neutral(format_entries_from(es, i), '{', '}'),
    decreases es, es.len() - i,
{
    if i >= es.len() {
        let e = Seq::<char>::empty();
        assert(forall|j: int| 0 <= j < e.len() ==> (#[trigger] e[j]) != '[' && e[j] != ']');
        lemma_neutral_free(e, '[', ']');
        lemma_neutral_free(e, '{', '}');
    } else {
        lemma_format_shape(es[i].1);
        lemma_format_entries_shape(es, i + 1);
        let k = es[i].0;
        let colon = seq![':'];
        let semi = seq![';'];
        let fv = format_val(es[i].1);
        let rest = format_entries_from(es, i + 1);
        assert(forall|j: int| 0 <= j < k.len() ==> (#[trigger] k[j]) != '[' && k[j] != ']');
        assert(forall|j: int| 0 <= j < k.len() ==> (#[trigger] k[j]) != '{' && k[j] != '}');
        lemma_neutral_free(k, '[', ']');
        lemma_neutral_free(k, '{', '}');
        lemma_neutral_free(colon, '[', ']');
        lemma_neutral_free(colon, '{', '}');
        lemma_neutral_free(semi, '[', ']');
        lemma_neutral_free(semi, '{', '}');
        lemma_neutral_concat(k, colon, '[', ']');
        lemma_neutral_concat(k + colon, fv, '[', ']');
        lemma_neutral_concat(k + colon + fv, semi, '[', ']');
        lemma_neutral_concat(k + colon + fv + semi, rest, '[', ']');
        lemma_neutral_concat(k, colon, '{', '}');
        lemma_neutral_concat(k + colon, fv, '{', '}');
        lemma_neutral_concat(k + colon + fv, semi, '{', '}');
        lemma_neutral_concat(k + colon + fv + semi, rest, '{', '}');
        assert(format_entries_from(es, i) =~= (((k + colon) + fv) + semi) + rest);
    }
}

// ---------------------------------------------------------------------------
// How the machine consumes canonical text
// ---------------------------------------------------------------------------

/// In text mode every character but the quote is appended verbatim.
proof fn lemma_run_in_text(st: LexSt, s: Seq<char>, sep: char)
    requires
        st.flag is Text,
        st.depth == 0,
        forall|i: int| 0 <= i < s.len() ==> (#[trigger] s[i]) != '\'',
    ensures
        lex_run(st, s, sep) == (LexSt { flag: Flag::Text, depth: 0, buf: st.buf + s, toks: st.toks }),
    decreases s.len(),
{
    if s.len() == 0 {
        assert(st =~= LexSt { flag: Flag::Text, depth: 0, buf: st.buf + s, toks: st.toks });
    } else {
        lemma_run_in_text(st, s.drop_last(), sep);
        assert(st.buf + s =~= (st.buf + s.drop_last()).push(s.last()));
        assert(lex_run(st, s, sep) =~= (LexSt {
            flag: Flag::Text,
            depth: 0,
            buf: st.buf + s,
            toks: st.toks,
        }));
    }
}

/// In number mode every character but the star is appended verbatim.
proof fn lemma_run_in_number(st: LexSt, s: Seq<char>, sep: char)
    requires
        st.flag is Number,
        st.depth == 0,
        forall|i: int| 0 <= i < s.len() ==> (#[trigger] s[i]) != '*',
    ensures
        lex_run(st, s, sep) == (LexSt {
            flag: Flag::Number,
            depth: 0,
            buf: st.buf + s,
            toks: st.toks,
        }),
    decreases s.len(),
{
    if s.len() == 0 {
        assert(st =~= LexSt { flag: Flag::Number, depth: 0, buf: st.buf + s, toks: st.toks });
    } else {
        lemma_run_in_number(st, s.drop_last(), sep);
        assert(st.buf + s =~= (st.buf + s.drop_last()).push(s.last()));
        assert(lex_run(st, s, sep) =~= (LexSt {
            flag: Flag::Number,
            depth: 0,
            buf: st.buf + s,
            toks: st.toks,
        }));
    }
}

/// In list mode a bracket-prefix-positive string is appended verbatim,
/// moving the depth by its balance.
proof fn lemma_run_in_list(st: LexSt, s: Seq<char>, sep: char)
    requires
        st.flag is List,
        st.depth >= 1,
        forall|i: int| 0 <= i <= s.len() ==> st.depth + bal(#[trigger] s.take(i), '[', ']') >= 1,
    ensures
        lex_run(st, s, sep) == (LexSt {
            flag: Flag::List,
            depth: st.depth + bal(s, '[', ']'),
            buf: st.buf + s,
            toks: st.toks,
        }),
    decreases s.len(),
{
    if s.len() == 0 {
        assert(st =~= LexSt {
            flag: Flag::List,
            depth: st.depth + bal(s, '[', ']'),
            buf: st.buf + s,
            toks: st.toks,
        });
    } else {
        assert forall|i: int| 0 <= i <= s.drop_last().len() implies st.depth + bal(
            #[trigger] s.drop_last().take(i),
            '[',
            ']',
        ) >= 1 by {
            assert(s.drop_last().take(i) =~= s.take(i));
        }
        lemma_run_in_list(st, s.drop_last(), sep);
        assert(s.take(s.len() - 1) =~= s.drop_last());
        assert(s.take(s.len() as int) =~= s);
        assert(st.buf + s =~= (st.buf + s.drop_last()).push(s.last()));
        assert(lex_run(st, s, sep) =~= (LexSt {
            flag: Flag::List,
            depth: st.depth + bal(s, '[', ']'),
            buf: st.buf + s,
            toks: st.toks,
        }));
    }
}

/// In group mode a brace-prefix-positive string is appended verbatim,
/// moving the depth by its balance.
proof fn lemma_run_in_group(st: LexSt, s: Seq<char>, sep: char)
    requires
        st.flag is Group,
        st.depth >= 1,
        forall|i: int| 0 <= i <= s.len() ==> st.depth + bal(#[trigger] s.take(i), '{', '}') >= 1,
    ensures
        lex_run(st, s, sep) == (LexSt {
            flag: Flag::Group,
            depth: st.depth + bal(s, '{', '}'),
            buf: st.buf + s,
            toks: st.toks,
        }),
    decreases s.len(),
{
    if s.len() == 0 {
        assert(st =~= LexSt {
            flag: Flag::Group,
            depth: st.depth + bal(s, '{', '}'),
            buf: st.buf + s,
            toks: st.toks,
        });
    } else {
        assert forall|i: int| 0 <= i <= s.drop_last().len() implies st.depth + bal(
            #[trigger] s.drop_last().take(i),
            '{',
            '}',
        ) >= 1 by {
            assert(s.drop_last().take(i) =~= s.take(i));
        }
        lemma_run_in_group(st, s.drop_last(), sep);
        assert(s.take(s.len() - 1) =~= s.drop_last());
        assert(s.take(s.len() as int) =~= s);
        assert(st.buf + s =~= (st.buf + s.drop_last()).push(s.last()));
        assert(lex_run(st, s, sep) =~= (LexSt {
            flag: Flag::Group,
            depth: st.depth + bal(s, '{', '}'),
            buf: st.buf + s,
            toks: st.toks,
        }));
    }
}

/// In plain mode, characters that are no whitespace, no opener and not
/// the separator are appended verbatim.
proof fn lemma_run_plain(st: LexSt, s: Seq<char>, sep: char)
    requires
        st.flag is Normal,
        st.depth == 0,
        forall|i: int|
            0 <= i < s.len() ==> !is_ws(#[trigger] s[i]) && spec_start(s[i]) is Normal && s[i]
                != sep,
    ensures
        lex_run(st, s, sep) == (LexSt {
            flag: Flag::Normal,
            depth: 0,
            buf: st.buf + s,
            toks: st.toks,
        }),
    decreases s.len(),
{
    if s.len() == 0 {
        assert(st =~= LexSt { flag: Flag::Normal, depth: 0, buf: st.buf + s, toks: st.toks });
    } else {
        lemma_run_plain(st, s.drop_last(), sep);
        assert(st.buf + s =~= (st.buf + s.drop_last()).push(s.last()));
        assert(lex_run(st, s, sep) =~= (LexSt {
            flag: Flag::Normal,
            depth: 0,
            buf: st.buf + s,
            toks: st.toks,
        }));
    }
}

/// Running over a single character is one step.
proof fn lemma_run_one(st: LexSt, c: char, sep: char)
    ensures
        lex_run(st, seq![c], sep) == crate::model::lex_step(st, c, sep),
{
    let q = seq![c];
    assert(q.drop_last() =~= Seq::<char>::empty());
    assert(q.last() == c);
    assert(lex_run(st, q.drop_last(), sep) == st);
}

/// From plain mode, the machine consumes the whole canonical text of an
/// embeddable value and returns to plain mode with it appended to the
/// buffer, flushing nothing.
#[verifier::rlimit(100)]
#[verifier::spinoff_prover]
proof fn lemma_consume_format(st: LexSt, v: Val, sep: char)
    requires
        st.flag is Normal,
        st.depth == 0,
        embeddable(v),
        sep == ',' || sep == ';',
    ensures
        lex_run(st, format_val(v), sep) == (LexSt {
            flag: Flag::Normal,
            depth: 0,
            buf: st.buf + format_val(v),
            toks: st.toks,
        }),
{
    lemma_format_shape(v);
    let f = format_val(v);
    match v {
        Val::Text(s) => {
            let q = seq!['\''];
            assert(f =~= q + (s + q));
            lemma_lex_run_append(st, q, s + q, sep);
            lemma_run_one(st, '\'', sep);
            let st1 = lex_run(st, q, sep);
            assert(st1 =~= LexSt { flag: Flag::Text, depth: 0, buf: st.buf.push('\''), toks: st.toks });
            lemma_lex_run_append(st1, s, q, sep);
            lemma_run_in_text(st1, s, sep);
            let st2 = lex_run(st1, s, sep);
            lemma_run_one(st2, '\'', sep);
            let st3 = lex_run(st2, q, sep);
            assert(st3 =~= LexSt {
                flag: Flag::Normal,
                depth: 0,
                buf: st1.buf + s + q,
                toks: st.toks,
            });
            assert(st.buf + f =~= st1.buf + s + q);
        },
        Val::Number(s) => {
            let q = seq!['*'];
            assert(f =~= q + (s + q));
            lemma_lex_run_append(st, q, s + q, sep);
            lemma_run_one(st, '*', sep);
            let st1 = lex_run(st, q, sep);
            assert(st1 =~= LexSt {
                flag: Flag::Number,
                depth: 0,
                buf: st.buf.push('*'),
                toks: st.toks,
            });
            lemma_float_literal_chars(s);
            lemma_lex_run_append(st1, s, q, sep);
            lemma_run_in_number(st1, s, sep);
            let st2 = lex_run(st1, s, sep);
            lemma_run_one(st2, '*', sep);
            let st3 = lex_run(st2, q, sep);
            assert(st3 =~= LexSt {
                flag: Flag::Normal,
                depth: 0,
                buf: st1.buf + s + q,
                toks: st.toks,
            });
            assert(st.buf + f =~= st1.buf + s + q);
        },
        Val::List(items) => {
            let body = format_items_from(items, 0);
            lemma_format_items_shape(items, 0);
            let ob = seq!['['];
            let cb = seq![']'];
            assert(f =~= ob + (body + cb));
            lemma_lex_run_append(st, ob, body + cb, sep);
            lemma_run_one(st, '[', sep);
            let st1 = lex_run(st, ob, sep);
            assert(st1 =~= LexSt { flag: Flag::List, depth: 1, buf: st.buf.push('['), toks: st.toks });
            assert forall|i: int| 0 <= i <= body.len() implies st1.depth + bal(
                #[trigger] body.take(i),
                '[',
                ']',
            ) >= 1 by {}
            lemma_lex_run_append(st1, body, cb, sep);
            lemma_run_in_list(st1, body, sep);
            let st2 = lex_run(st1, body, sep);
            assert(st2.depth == 1);
            lemma_run_one(st2, ']', sep);
            let st3 = lex_run(st2, cb, sep);
            assert(st3 =~= LexSt {
                flag: Flag::Normal,
                depth: 0,
                buf: st1.buf + body + cb,
                toks: st.toks,
            });
            assert(st.buf + f =~= st1.buf + body + cb);
        },
        Val::Group(es) => {
            let body = format_entries_from(es, 0);
            lemma_format_entries_shape(es, 0);
            let ob = seq!['{'];
            let cb = seq!['}'];
            assert(f =~= ob + (body + cb));
            lemma_lex_run_append(st, ob, body + cb, sep);
            lemma_run_one(st, '{', sep);
            let st1 = lex_run(st, ob, sep);
            assert(st1 =~= LexSt {
                flag: Flag::Group,
                depth: 1,
                buf: st.buf.push('{'),
                toks: st.toks,
            });
            assert forall|i: int| 0 <= i <= body.len() implies st1.depth + bal(
                #[trigger] body.take(i),
                '{',
                '}',
            ) >= 1 by {}
            lemma_lex_run_append(st1, body, cb, sep);
            lemma_run_in_group(st1, body, sep);
            let st2 = lex_run(st1, body, sep);
            assert(st2.depth == 1);
            lemma_run_one(st2, '}', sep);
            let st3 = lex_run(st2, cb, sep);
            assert(st3 =~= LexSt {
                flag: Flag::Normal,
                depth: 0,
                buf: st1.buf + body + cb,
                toks: st.toks,
            });
            assert(st.buf + f =~= st1.buf + body + cb);
        },
    }
}


// ---------------------------------------------------------------------------
// Tokens of formatted bodies
// ---------------------------------------------------------------------------

/// The canonical texts of the elements from `i` up to `j` (exclusive).
spec fn formats_range(items: Seq<Val>, i: int, j: int) -> Seq<Seq<char>>
    decreases j - i,
{
    if i < 0 || i >= j {
        Seq::empty()
    } else {
        seq![format_val(items[i])] + formats_range(items, i + 1, j)
    }
}

proof fn lemma_formats_range(items: Seq<Val>, i: int, j: int)
    requires
        0 <= i <= j,
    ensures
        formats_range(items, i, j).len() == j - i,
        forall|k: int|
            0 <= k < j - i ==> formats_range(items, i, j)[k] == format_val(items[i + k]),
    decreases j - i,
{
    if i < j {
        lemma_formats_range(items, i + 1, j);
    }
}

/// The entry texts `key:value` of the entries from `i` up to `j`.
spec fn entry_text(e: (Seq<char>, Val)) -> Seq<char> {
    e.0 + seq![':'] + format_val(e.1)
}

spec fn entry_texts_range(es: Seq<(Seq<char>, Val)>, i: int, j: int) -> Seq<Seq<char>>
    decreases j - i,
{
    if i < 0 || i >= j {
        Seq::empty()
    } else {
        seq![entry_text(es[i])] + entry_texts_range(es, i + 1, j)
    }
}

proof fn lemma_entry_texts_range(es: Seq<(Seq<char>, Val)>, i: int, j: int)
    requires
        0 <= i <= j,
    ensures
        entry_texts_range(es, i, j).len() == j - i,
        forall|k: int|
            0 <= k < j - i ==> entry_texts_range(es, i, j)[k] == entry_text(es[i + k]),
    decreases j - i,
{
    if i < j {
        lemma_entry_texts_range(es, i + 1, j);
    }
}

/// Every element's canonical text fits within the body from `i` on.
proof fn lemma_format_item_le(items: Seq<Val>, i: int, k: int)
    requires
        0 <= i <= k < items.len(),
    ensures
        format_val(items[k]).len() <= format_items_from(items, i).len(),
    decreases k - i,
{
    if i == items.len() - 1 {
    } else if k == i {
    } else {
        lemma_format_item_le(items, i + 1, k);
    }
}

/// Every entry's text fits within the body from `i` on.
proof fn lemma_format_entry_le(es: Seq<(Seq<char>, Val)>, i: int, k: int)
    requires
        0 <= i <= k < es.len(),
    ensures
        entry_text(es[k]).len() <= format_entries_from(es, i).len(),
    decreases k - i,
{
    if k == i {
    } else {
        lemma_format_entry_le(es, i + 1, k);
    }
}

/// Lexing a formatted list body from element `i` on: the earlier tokens
/// flushed, the last element's text left in the buffer.
proof fn lemma_run_items(toksacc: Seq<Seq<char>>, items: Seq<Val>, i: int)
    requires
        0 <= i < items.len(),
        embeddable_items_from(items, i),
    ensures
        lex_run(
            LexSt { flag: Flag::Normal, depth: 0, buf: Seq::empty(), toks: toksacc },
            format_items_from(items, i),
            ',',
        ) == (LexSt {
            flag: Flag::Normal,
            depth: 0,
            buf: format_val(items[items.len() - 1]),
            toks: toksacc + formats_range(items, i, items.len() - 1),
        }),
    decreases items.len() - i,
{
    let st = LexSt { flag: Flag::Normal, depth: 0, buf: Seq::empty(), toks: toksacc };
    if i == items.len() - 1 {
        lemma_consume_format(st, items[i], ',');
        assert(Seq::empty() + format_val(items[i]) =~= format_val(items[i]));
        assert(toksacc + formats_range(items, i, i) =~= toksacc);
        assert(lex_run(st, format_items_from(items, i), ',') =~= (LexSt {
            flag: Flag::Normal,
            depth: 0,
            buf: format_val(items[items.len() - 1]),
            toks: toksacc + formats_range(items, i, items.len() - 1),
        }));
    } else {
        let fi = format_val(items[i]);
        let rest = format_items_from(items, i + 1);
        let body = format_items_from(items, i);
        assert(body =~= fi + (seq![','] + rest));
        lemma_lex_run_append(st, fi, seq![','] + rest, ',');
        lemma_consume_format(st, items[i], ',');
        let st1 = lex_run(st, fi, ',');
        assert(st1 =~= LexSt {
            flag: Flag::Normal,
            depth: 0,
            buf: Seq::empty() + fi,
            toks: toksacc,
        });
        lemma_lex_run_append(st1, seq![','], rest, ',');
        lemma_run_one(st1, ',', ',');
        let st2 = lex_run(st1, seq![','], ',');
        assert(st2 =~= LexSt {
            flag: Flag::Normal,
            depth: 0,
            buf: Seq::empty(),
            toks: toksacc.push(Seq::empty() + fi),
        });
        assert(Seq::empty() + fi =~= fi);
        lemma_run_items(toksacc.push(fi), items, i + 1);
        assert(toksacc.push(fi) + formats_range(items, i + 1, items.len() - 1) =~= toksacc
            + formats_range(items, i, items.len() - 1));
        assert(lex_run(st, body, ',') =~= (LexSt {
            flag: Flag::Normal,
            depth: 0,
            buf: format_val(items[items.len() - 1]),
            toks: toksacc + formats_range(items, i, items.len() - 1),
        }));
    }
}

/// Lexing a formatted list body yields exactly the elements' texts.
proof fn lemma_lex_list_body(items: Seq<Val>)
    requires
        embeddable_items_from(items, 0),
    ensures
        lex_spec(format_items_from(items, 0), ',') == Some(formats_range(items, 0, items.len() as int)),
{
    if items.len() == 0 {
        assert(format_items_from(items, 0) =~= Seq::<char>::empty());
        assert(lex_run(lex_init(), Seq::empty(), ',') == lex_init());
        assert(formats_range(items, 0, 0) =~= Seq::<Seq<char>>::empty());
    } else {
        lemma_run_items(Seq::empty(), items, 0);
        assert(lex_init() =~= LexSt {
            flag: Flag::Normal,
            depth: 0,
            buf: Seq::empty(),
            toks: Seq::empty(),
        });
        let stf = lex_run(lex_init(), format_items_from(items, 0), ',');
        lemma_embeddable_items_at(items, 0, items.len() - 1);
        lemma_format_shape(items[items.len() - 1]);
        assert(stf.buf.len() >= 2);
        lemma_formats_range(items, 0, items.len() - 1);
        lemma_formats_range(items, 0, items.len() as int);
        assert((Seq::empty() + formats_range(items, 0, items.len() - 1)).push(
            format_val(items[items.len() - 1]),
        ) =~= formats_range(items, 0, items.len() as int));
    }
}

/// Element `k` of an embeddable tail is embeddable.
proof fn lemma_embeddable_items_at(items: Seq<Val>, i: int, k: int)
    requires
        0 <= i <= k < items.len(),
        embeddable_items_from(items, i),
    ensures
        embeddable(items[k]),
    decreases k - i,
{
    if i < k {
        lemma_embeddable_items_at(items, i + 1, k);
    }
}

/// Entry `k` of an embeddable tail has an admissible key and value.
proof fn lemma_embeddable_entries_at(es: Seq<(Seq<char>, Val)>, i: int, k: int)
    requires
        0 <= i <= k < es.len(),
        embeddable_entries_from(es, i),
    ensures
        key_ok(es[k].0),
        embeddable(es[k].1),
    decreases k - i,
{
    if i < k {
        lemma_embeddable_entries_at(es, i + 1, k);
    }
}

/// The machine consumes one entry text in plain mode, appending it.
proof fn lemma_run_entry(st: LexSt, e: (Seq<char>, Val))
    requires
        st.flag is Normal,
        st.depth == 0,
        key_ok(e.0),
        embeddable(e.1),
    ensures
        lex_run(st, entry_text(e), ';') == (LexSt {
            flag: Flag::Normal,
            depth: 0,
            buf: st.buf + entry_text(e),
            toks: st.toks,
        }),
{
    let k = e.0;
    let fv = format_val(e.1);
    let kc = k + seq![':'];
    assert(entry_text(e) =~= kc + fv);
    assert forall|j: int|
        0 <= j < kc.len() implies !is_ws(#[trigger] kc[j]) && spec_start(kc[j]) is Normal && kc[j]
        != ';' by {
        if j < k.len() {
            assert(kc[j] == k[j]);
        } else {
            assert(kc[j] == ':');
        }
    }
    lemma_lex_run_append(st, kc, fv, ';');
    lemma_run_plain(st, kc, ';');
    let st1 = lex_run(st, kc, ';');
    lemma_consume_format(st1, e.1, ';');
    assert(st.buf + entry_text(e) =~= (st.buf + kc) + fv);
    assert(lex_run(st, entry_text(e), ';') =~= (LexSt {
        flag: Flag::Normal,
        depth: 0,
        buf: st.buf + entry_text(e),
        toks: st.toks,
    }));
}

/// Lexing a formatted group body from entry `i` on: every entry text
/// flushed by its closing `;`, the buffer left empty.
proof fn lemma_run_entries(toksacc: Seq<Seq<char>>, es: Seq<(Seq<char>, Val)>, i: int)
    requires
        0 <= i <= es.len(),
        embeddable_entries_from(es, i),
    ensures
        lex_run(
            LexSt { flag: Flag::Normal, depth: 0, buf: Seq::empty(), toks: toksacc },
            format_entries_from(es, i),
            ';',
        ) == (LexSt {
            flag: Flag::Normal,
            depth: 0,
            buf: Seq::empty(),
            toks: toksacc + entry_texts_range(es, i, es.len() as int),
        }),
    decreases es.len() - i,
{
    let st = LexSt { flag: Flag::Normal, depth: 0, buf: Seq::empty(), toks: toksacc };
    if i == es.len() {
        assert(format_entries_from(es, i) =~= Seq::<char>::empty());
        assert(toksacc + entry_texts_range(es, i, es.len() as int) =~= toksacc);
        assert(lex_run(st, format_entries_from(es, i), ';') =~= (LexSt {
            flag: Flag::Normal,
            depth: 0,
            buf: Seq::empty(),
            toks: toksacc + entry_texts_range(es, i, es.len() as int),
        }));
    } else {
        let et = entry_text(es[i]);
        let rest = format_entries_from(es, i + 1);
        let body = format_entries_from(es, i);
        assert(body =~= et + (seq![';'] + rest));
        lemma_lex_run_append(st, et, seq![';'] + rest, ';');
        lemma_run_entry(st, es[i]);
        let st1 = lex_run(st, et, ';');
        assert(st1 =~= LexSt { flag: Flag::Normal, depth: 0, buf: Seq::empty() + et, toks: toksacc });
        lemma_lex_run_append(st1, seq![';'], rest, ';');
        lemma_run_one(st1, ';', ';');
        let st2 = lex_run(st1, seq![';'], ';');
        assert(st2 =~= LexSt {
            flag: Flag::Normal,
            depth: 0,
            buf: Seq::empty(),
            toks: toksacc.push(Seq::empty() + et),
        });
        assert(Seq::empty() + et =~= et);
        lemma_run_entries(toksacc.push(et), es, i + 1);
        assert(toksacc.push(et) + entry_texts_range(es, i + 1, es.len() as int) =~= toksacc
            + entry_texts_range(es, i, es.len() as int));
        assert(lex_run(st, body, ';') =~= (LexSt {
            flag: Flag::Normal,
            depth: 0,
            buf: Seq::empty(),
            toks: toksacc + entry_texts_range(es, i, es.len() as int),
        }));
    }
}

/// Lexing a formatted group body yields exactly the entry texts.
proof fn lemma_lex_group_body(es: Seq<(Seq<char>, Val)>)
    requires
        embeddable_entries_from(es, 0),
    ensures
        lex_spec(format_entries_from(es, 0), ';') == Some(
            entry_texts_range(es, 0, es.len() as int),
        ),
{
    lemma_run_entries(Seq::empty(), es, 0);
    assert(lex_init() =~= LexSt {
        flag: Flag::Normal,
        depth: 0,
        buf: Seq::empty(),
        toks: Seq::empty(),
    });
    assert(Seq::empty() + entry_texts_range(es, 0, es.len() as int) =~= entry_texts_range(
        es,
        0,
        es.len() as int,
    ));
}


// ---------------------------------------------------------------------------
// The round-trip laws
// ---------------------------------------------------------------------------

/// Parsing the formatted elements back, token by token, yields the
/// elements from `i` on.
proof fn lemma_parse_items_formats(bound: int, items: Seq<Val>, i: int)
    requires
        0 <= bound,
        embeddable_items_from(items, 0),
        0 <= i <= items.len(),
        forall|k: int| 0 <= k < items.len() ==> format_val(#[trigger] items[k]).len() < bound,
    ensures
        parse_items_spec(bound, formats_range(items, 0, items.len() as int), i) == Ok::<
            Seq<Val>,
            ParseError,
        >(items.skip(i)),
    decreases items, 0int, items.len() - i,
{
    let toks = formats_range(items, 0, items.len() as int);
    lemma_formats_range(items, 0, items.len() as int);
    if i == items.len() {
        assert(items.skip(i) =~= Seq::<Val>::empty());
    } else {
        assert(toks[i] == format_val(items[i]));
        lemma_embeddable_items_at(items, 0, i);
        lemma_round_trip(items[i]);
        lemma_parse_items_formats(bound, items, i + 1);
        assert(items.skip(i) =~= seq![items[i]] + items.skip(i + 1));
    }
}

/// Parsing the entry texts back, token by token, appends the entries
/// from `i` on to `acc`.
proof fn lemma_parse_entries_formats(
    bound: int,
    es: Seq<(Seq<char>, Val)>,
    i: int,
    acc: Seq<(Seq<char>, Val)>,
)
    requires
        0 <= bound,
        embeddable_entries_from(es, 0),
        keys_distinct(es),
        0 <= i <= es.len(),
        forall|k: int| 0 <= k < es.len() ==> entry_text(#[trigger] es[k]).len() < bound,
        forall|j: int| i <= j < es.len() ==> first_key_idx(acc, (#[trigger] es[j]).0, 0) is None,
    ensures
        parse_entries_spec(bound, entry_texts_range(es, 0, es.len() as int), i, acc) == Ok::<
            Seq<(Seq<char>, Val)>,
            ParseError,
        >(acc + es.skip(i)),
    decreases es, 0int, es.len() - i,
{
    let toks = entry_texts_range(es, 0, es.len() as int);
    lemma_entry_texts_range(es, 0, es.len() as int);
    if i == es.len() {
        assert(acc + es.skip(i) =~= acc);
    } else {
        let e = es[i];
        let tok = toks[i];
        assert(tok == entry_text(e));
        lemma_embeddable_entries_at(es, 0, i);
        lemma_format_shape(e.1);
        assert(tok =~= (e.0 + seq![':']) + format_val(e.1));
        assert(tok.len() > 0);
        assert(tok[e.0.len() as int] == ':');
        assert forall|j: int| 0 <= j < e.0.len() implies (#[trigger] tok[j]) != ':' by {
            assert(tok[j] == e.0[j]);
        }
        lemma_find_char(tok, ':');
        assert(find_char(tok, ':') == Some(e.0.len() as int));
        assert(tok.take(e.0.len() as int) =~= e.0);
        assert(tok.skip(e.0.len() as int + 1) =~= format_val(e.1));
        lemma_round_trip(e.1);
        lemma_first_key_idx(acc, e.0, 0);
        let acc2 = acc.push((e.0, e.1));
        assert(upsert(acc, e.0, e.1) == acc2);
        assert forall|j: int|
            i + 1 <= j < es.len() implies first_key_idx(acc2, (#[trigger] es[j]).0, 0) is None by {
            lemma_first_key_idx(acc2, es[j].0, 0);
            match first_key_idx(acc2, es[j].0, 0) {
                None => {},
                Some(p) => {
                    assert(acc2[p].0 == es[j].0);
                    if p < acc.len() {
                        lemma_first_key_idx(acc, es[j].0, 0);
                        assert(acc2[p] == acc[p]);
                        assert(false);
                    } else {
                        assert(acc2[p] == (e.0, e.1));
                        assert(es[i].0 != es[j].0);
                        assert(false);
                    }
                },
            }
        }
        lemma_parse_entries_formats(bound, es, i + 1, acc2);
        assert(acc + es.skip(i) =~~= acc2 + es.skip(i + 1));
    }
}

/// Parsing the canonical text of an embeddable value yields the value
/// itself: round-trip safety for lists and groups (and the scalars they
/// hold), given text contents free of the five delimiter characters,
/// well-formed number literals, and distinct, delimiter-free group keys.
pub proof fn lemma_round_trip(v: Val)
    requires
        embeddable(v),
    ensures
        parse_value_spec(format_val(v)) == Ok::<Val, ParseError>(v),
    decreases v, 1int, 0int,
{
    lemma_format_shape(v);
    let f = format_val(v);
    match v {
        Val::Text(s) => {
            lemma_trim_id(f);
            assert(f =~= seq!['\''] + s + seq!['\'']);
            assert(f.subrange(1, f.len() - 1) =~= s);
        },
        Val::Number(s) => {
            lemma_trim_id(f);
            assert(f =~= seq!['*'] + s + seq!['*']);
            assert(f.subrange(1, f.len() - 1) =~= s);
        },
        Val::List(items) => {
            lemma_trim_id(f);
            let body = format_items_from(items, 0);
            assert(f =~= seq!['['] + body + seq![']']);
            assert(f.subrange(1, f.len() - 1) =~= body);
            lemma_lex_list_body(items);
            if items.len() == 0 {
                assert(parse_items_spec(f.len() as int, formats_range(items, 0, 0), 0) == Ok::<
                    Seq<Val>,
                    ParseError,
                >(Seq::empty()));
                assert(items =~= Seq::<Val>::empty());
            } else {
                assert forall|k: int|
                    0 <= k < items.len() implies format_val(#[trigger] items[k]).len()
                    < f.len() by {
                    lemma_format_item_le(items, 0, k);
                }
                lemma_parse_items_formats(f.len() as int, items, 0);
                assert(items.skip(0) =~= items);
            }
        },
        Val::Group(es) => {
            lemma_trim_id(f);
            let body = format_entries_from(es, 0);
            assert(f =~= seq!['{'] + body + seq!['}']);
            assert(f.subrange(1, f.len() - 1) =~= body);
            lemma_lex_group_body(es);
            assert forall|k: int|
                0 <= k < es.len() implies entry_text(#[trigger] es[k]).len() < f.len() by {
                lemma_format_entry_le(es, 0, k);
            }
            assert(forall|j: int|
                0 <= j < es.len() ==> first_key_idx(Seq::<(Seq<char>, Val)>::empty(), (
                #[trigger] es[j]).0, 0) is None);
            lemma_parse_entries_formats(f.len() as int, es, 0, Seq::empty());
            assert(Seq::<(Seq<char>, Val)>::empty() + es.skip(0) =~= es);
        },
    }
}

/// Parsing the canonical text of any text value, or of any number
/// holding a decimal float literal, yields the value back — with no
/// side condition on the text content.
pub proof fn lemma_scalar_round_trip(v: Val)
    requires
        v is Text || (v matches Val::Number(s) && is_float_literal(s)),
    ensures
        parse_value_spec(format_val(v)) == Ok::<Val, ParseError>(v),
{
    let f = format_val(v);
    match v {
        Val::Text(s) => {
            assert(f =~= seq!['\''] + s + seq!['\'']);
            assert(f[0] == '\'');
            assert(f.last() == '\'');
            lemma_trim_id(f);
            assert(f.subrange(1, f.len() - 1) =~= s);
        },
        Val::Number(_) => {
            lemma_round_trip(v);
        },
        _ => {},
    }
}


// ---------------------------------------------------------------------------
// The store round trip
// ---------------------------------------------------------------------------

/// An entry fit for the line-oriented store: a store-safe key and an
/// embeddable value free of newlines.
pub open spec fn store_entry_ok(k: Seq<char>, v: Val) -> bool {
    store_key_ok(k) && embeddable(v) && no_newlines(v)
}

/// Every entry of the sequence is fit for the store.
pub open spec fn store_entries_ok(m: Seq<(Seq<char>, Val)>) -> bool {
    forall|i: int| 0 <= i < m.len() ==> store_entry_ok((#[trigger] m[i]).0, m[i].1)
}

/// No newline anywhere in the canonical text of a newline-free value.
proof fn lemma_format_no_newline(v: Val)
    requires
        embeddable(v),
        no_newlines(v),
    ensures
        forall|i: int| 0 <= i < format_val(v).len() ==> (#[trigger] format_val(v)[i]) != '\n',
    decreases v, 0int,
{
    let f = format_val(v);
    match v {
        Val::Text(s) => {
            assert forall|i: int| 0 <= i < f.len() implies (#[trigger] f[i]) != '\n' by {
                if 1 <= i < s.len() + 1 {
                    assert(f[i] == s[i - 1]);
                }
            }
        },
        Val::Number(s) => {
            lemma_float_literal_chars(s);
            assert forall|i: int| 0 <= i < f.len() implies (#[trigger] f[i]) != '\n' by {
                if 1 <= i < s.len() + 1 {
                    assert(f[i] == s[i - 1]);
                }
            }
        },
        Val::List(items) => {
            let body = format_items_from(items, 0);
            lemma_format_items_no_newline(items, 0);
            assert(f =~= seq!['['] + body + seq![']']);
            assert forall|i: int| 0 <= i < f.len() implies (#[trigger] f[i]) != '\n' by {
                if 1 <= i < body.len() + 1 {
                    assert(f[i] == body[i - 1]);
                }
            }
        },
        Val::Group(es) => {
            let body = format_entries_from(es, 0);
            lemma_format_entries_no_newline(es, 0);
            assert(f =~= seq!['{'] + body + seq!['}']);
            assert forall|i: int| 0 <= i < f.len() implies (#[trigger] f[i]) != '\n' by {
                if 1 <= i < body.len() + 1 {
                    assert(f[i] == body[i - 1]);
                }
            }
        },
    }
}

proof fn lemma_format_items_no_newline(items: Seq<Val>, i: int)
    requires
        0 <= i,
        embeddable_items_from(items, i),
        no_newlines_items_from(items, i),
    ensures
        forall|j: int|
            0 <= j < format_items_from(items, i).len() ==> (#[trigger] format_items_from(
                items,
                i,
            )[j]) != '\n',
    decreases items, items.len() - i,
{
    if i >= items.len() {
    } else if i == items.len() - 1 {
        lemma_format_no_newline(items[i]);
        assert forall|j: int|
            0 <= j < format_items_from(items, i).len() implies (#[trigger] format_items_from(
                items,
                i,
            )[j]) != '\n' by {
            assert(format_items_from(items, i)[j] == format_val(items[i])[j]);
        }
    } else {
        lemma_format_no_newline(items[i]);
        lemma_format_items_no_newline(items, i + 1);
        let fi = format_val(items[i]);
        let rest = format_items_from(items, i + 1);
        let body = format_items_from(items, i);
        assert(body =~= (fi + seq![',']) + rest);
        assert forall|j: int| 0 <= j < body.len() implies (#[trigger] body[j]) != '\n' by {
            if j < fi.len() {
                assert(body[j] == fi[j]);
            } else if j == fi.len() {
                assert(body[j] == ',');
            } else {
                assert(body[j] == rest[j - fi.len() - 1]);
            }
        }
    }
}

proof fn lemma_format_entries_no_newline(es: Seq<(Seq<char>, Val)>, i: int)
    requires
        0 <= i,
        embeddable_entries_from(es, i),
        no_newlines_entries_from(es, i),
    ensures
        forall|j: int|
            0 <= j < format_entries_from(es, i).len() ==> (#[trigger] format_entries_from(
                es,
                i,
            )[j]) != '\n',
    decreases es, es.len() - i,
{
    if i >= es.len() {
    } else {
        lemma_format_no_newline(es[i].1);
        lemma_format_entries_no_newline(es, i + 1);
        let k = es[i].0;
        let fv = format_val(es[i].1);
        let rest = format_entries_from(es, i + 1);
        let body = format_entries_from(es, i);
        let et = ((k + seq![':']) + fv) + seq![';'];
        assert(body =~= et + rest);
        assert forall|j: int| 0 <= j < body.len() implies (#[trigger] body[j]) != '\n' by {
            if j < k.len() {
                assert(body[j] == k[j]);
            } else if j == k.len() {
                assert(body[j] == ':');
            } else if j < k.len() + 1 + fv.len() {
                assert(body[j] == fv[j - k.len() - 1]);
            } else if j == k.len() + 1 + fv.len() {
                assert(body[j] == ';');
            } else {
                assert(body[j] == rest[j - et.len()]);
            }
        }
    }
}

/// The entry line of a store-fit entry holds no newline.
proof fn lemma_entry_text_no_newline(e: (Seq<char>, Val))
    requires
        store_entry_ok(e.0, e.1),
    ensures
        forall|j: int| 0 <= j < entry_text(e).len() ==> (#[trigger] entry_text(e)[j]) != '\n',
{
    let t = entry_text(e);
    lemma_format_no_newline(e.1);
    assert forall|j: int| 0 <= j < t.len() implies (#[trigger] t[j]) != '\n' by {
        if j < e.0.len() {
            assert(t[j] == e.0[j]);
        } else if j == e.0.len() {
            assert(t[j] == ':');
        } else {
            assert(t[j] == format_val(e.1)[j - e.0.len() - 1]);
        }
    }
}

/// Splitting a formatted store text recovers exactly the entry lines.
proof fn lemma_split_store(m: Seq<(Seq<char>, Val)>, i: int)
    requires
        0 <= i < m.len(),
        store_entries_ok(m),
    ensures
        split_lines(format_store_from(m, i)) == entry_texts_range(m, i, m.len() as int),
    decreases m.len() - i,
{
    let et = entry_text(m[i]);
    assert(format_entry(m[i].0, m[i].1) == et);
    lemma_entry_text_no_newline(m[i]);
    if i == m.len() - 1 {
        lemma_find_char(et, '\n');
        match find_char(et, '\n') {
            None => {},
            Some(p) => {
                assert(et[p] == '\n');
                assert(entry_text(m[i])[p] != '\n');
                assert(false);
            },
        }
        assert(find_char(et, '\n') is None);
        assert(entry_texts_range(m, i + 1, m.len() as int) =~= Seq::<Seq<char>>::empty());
        assert(split_lines(format_store_from(m, i)) =~= entry_texts_range(m, i, m.len() as int));
    } else {
        let rest = format_store_from(m, i + 1);
        let text = format_store_from(m, i);
        assert(text =~= et + (seq!['\n'] + rest));
        assert(text[et.len() as int] == '\n');
        assert forall|j: int| 0 <= j < et.len() implies (#[trigger] text[j]) != '\n' by {
            assert(text[j] == et[j]);
        }
        lemma_find_char(text, '\n');
        assert(find_char(text, '\n') == Some(et.len() as int));
        assert(text.take(et.len() as int) =~= et);
        assert(text.skip(et.len() as int + 1) =~= rest);
        lemma_split_store(m, i + 1);
        assert(split_lines(text) =~= seq![et] + split_lines(rest));
        assert(seq![et] + entry_texts_range(m, i + 1, m.len() as int) =~= entry_texts_range(
            m,
            i,
            m.len() as int,
        ));
    }
}

/// Parsing the entry lines back, line by line, appends the entries from
/// `i` on to `acc`.
proof fn lemma_parse_lines_store(m: Seq<(Seq<char>, Val)>, i: int, acc: Seq<(Seq<char>, Val)>)
    requires
        store_entries_ok(m),
        keys_distinct(m),
        0 <= i <= m.len(),
        forall|j: int| i <= j < m.len() ==> first_key_idx(acc, (#[trigger] m[j]).0, 0) is None,
    ensures
        parse_lines_spec(entry_texts_range(m, 0, m.len() as int), i, acc) == Ok::<
            Seq<(Seq<char>, Val)>,
            ParseError,
        >(acc + m.skip(i)),
    decreases m.len() - i,
{
    let lines = entry_texts_range(m, 0, m.len() as int);
    lemma_entry_texts_range(m, 0, m.len() as int);
    if i == m.len() {
        assert(acc + m.skip(i) =~= acc);
    } else {
        let e = m[i];
        let line = lines[i];
        assert(line == entry_text(e));
        assert(line =~= (e.0 + seq![':']) + format_val(e.1));
        lemma_format_shape(e.1);
        assert(line.len() > 0);
        assert(!is_ws(line[0])) by {
            if e.0.len() > 0 {
                assert(line[0] == e.0[0]);
            } else {
                assert(line[0] == ':');
            }
        }
        assert(!is_ws(line.last())) by {
            assert(line.last() == format_val(e.1).last());
        }
        lemma_trim_id(line);
        assert(line[e.0.len() as int] == ':');
        assert forall|j: int| 0 <= j < e.0.len() implies (#[trigger] line[j]) != ':' by {
            assert(line[j] == e.0[j]);
        }
        lemma_find_char(line, ':');
        assert(find_char(line, ':') == Some(e.0.len() as int));
        assert(line.take(e.0.len() as int) =~= e.0);
        assert(line.skip(e.0.len() as int + 1) =~= format_val(e.1));
        lemma_round_trip(e.1);
        lemma_first_key_idx(acc, e.0, 0);
        let acc2 = acc.push((e.0, e.1));
        assert(upsert(acc, e.0, e.1) == acc2);
        assert forall|j: int|
            i + 1 <= j < m.len() implies first_key_idx(acc2, (#[trigger] m[j]).0, 0) is None by {
            lemma_first_key_idx(acc2, m[j].0, 0);
            match first_key_idx(acc2, m[j].0, 0) {
                None => {},
                Some(p) => {
                    assert(acc2[p].0 == m[j].0);
                    if p < acc.len() {
                        lemma_first_key_idx(acc, m[j].0, 0);
                        assert(acc2[p] == acc[p]);
                        assert(false);
                    } else {
                        assert(acc2[p] == (e.0, e.1));
                        assert(m[i].0 != m[j].0);
                        assert(false);
                    }
                },
            }
        }
        lemma_parse_lines_store(m, i + 1, acc2);
        assert(acc + m.skip(i) =~~= acc2 + m.skip(i + 1));
    }
}

/// Rendering a store and parsing the text back yields the same entries,
/// for distinct keys and store-fit entries.
pub proof fn lemma_store_round_trip(m: Seq<(Seq<char>, Val)>)
    requires
        keys_distinct(m),
        store_entries_ok(m),
    ensures
        parse_store_spec(format_store_spec(m)) == Ok::<Seq<(Seq<char>, Val)>, ParseError>(m),
{
    let empty_acc = Seq::<(Seq<char>, Val)>::empty();
    if m.len() == 0 {
        let text = format_store_spec(m);
        assert(text =~= Seq::<char>::empty());
        lemma_find_char(text, '\n');
        assert(split_lines(text) == seq![text]);
        assert(seq![text][0] == text);
        assert(trim(text) =~= Seq::<char>::empty());
        lemma_find_char(trim(text), ':');
        assert(find_char(trim(text), ':') is None);
        assert(parse_lines_spec(seq![text], 1, empty_acc) == Ok::<
            Seq<(Seq<char>, Val)>,
            ParseError,
        >(empty_acc));
        assert(parse_lines_spec(seq![text], 0, empty_acc) == Ok::<
            Seq<(Seq<char>, Val)>,
            ParseError,
        >(empty_acc));
        assert(m =~= empty_acc);
    } else {
        lemma_split_store(m, 0);
        let text = format_store_spec(m);
        assert(split_lines(text) == entry_texts_range(m, 0, m.len() as int));
        assert(forall|j: int|
            0 <= j < m.len() ==> first_key_idx(Seq::<(Seq<char>, Val)>::empty(), (
            #[trigger] m[j]).0, 0) is None);
        lemma_parse_lines_store(m, 0, Seq::empty());
        assert(parse_lines_spec(entry_texts_range(m, 0, m.len() as int), 0, empty_acc) == Ok::<
            Seq<(Seq<char>, Val)>,
            ParseError,
        >(empty_acc + m.skip(0)));
        assert(empty_acc + m.skip(0) =~= m);
        assert(parse_store_spec(text) == Ok::<Seq<(Seq<char>, Val)>, ParseError>(m));
    }
}

/// Writing a key never breaks key distinctness.
proof fn lemma_upsert_distinct(m: Seq<(Seq<char>, Val)>, k: Seq<char>, v: Val)
    requires
        keys_distinct(m),
    ensures
        keys_distinct(upsert(m, k, v)),
{
    lemma_first_key_idx(m, k, 0);
    match first_key_idx(m, k, 0) {
        None => {
            let m2 = m.push((k, v));
            assert forall|i: int, j: int|
                0 <= i < j < m2.len() implies (#[trigger] m2[i].0) != (#[trigger] m2[j].0) by {
                if j < m.len() {
                    assert(m2[i] == m[i]);
                    assert(m2[j] == m[j]);
                } else {
                    assert(m2[i] == m[i]);
                    assert(m2[j].0 == k);
                }
            }
        },
        Some(p) => {
            let m2 = m.update(p, (k, v));
            assert(m[p].0 == k);
            assert forall|i: int, j: int|
                0 <= i < j < m2.len() implies (#[trigger] m2[i].0) != (#[trigger] m2[j].0) by {
                assert(m2[i] == if i == p { (k, v) } else { m[i] });
                assert(m2[j] == if j == p { (k, v) } else { m[j] });
            }
        },
    }
}

/// Writing a key leaves every entry store-fit, given a store-fit entry.
proof fn lemma_upsert_ok(m: Seq<(Seq<char>, Val)>, k: Seq<char>, v: Val)
    requires
        store_entries_ok(m),
        store_entry_ok(k, v),
    ensures
        store_entries_ok(upsert(m, k, v)),
{
    lemma_first_key_idx(m, k, 0);
    match first_key_idx(m, k, 0) {
        None => {
            let m2 = m.push((k, v));
            assert forall|i: int|
                0 <= i < m2.len() implies store_entry_ok((#[trigger] m2[i]).0, m2[i].1) by {
                if i < m.len() {
                    assert(m2[i] == m[i]);
                } else {
                    assert(m2[i] == (k, v));
                }
            }
        },
        Some(p) => {
            let m2 = m.update(p, (k, v));
            assert forall|i: int|
                0 <= i < m2.len() implies store_entry_ok((#[trigger] m2[i]).0, m2[i].1) by {
                if i != p {
                    assert(m2[i] == m[i]);
                } else {
                    assert(m2[i] == (k, v));
                }
            }
        },
    }
}

/// After writing a key, looking it up yields the written value.
proof fn lemma_lookup_upsert(m: Seq<(Seq<char>, Val)>, k: Seq<char>, v: Val)
    ensures
        lookup(upsert(m, k, v), k) == Some(v),
{
    lemma_first_key_idx(m, k, 0);
    match first_key_idx(m, k, 0) {
        None => {
            let m2 = m.push((k, v));
            lemma_first_key_idx(m2, k, 0);
            match first_key_idx(m2, k, 0) {
                None => {
                    assert(m2[m.len() as int].0 == k);
                    assert(false);
                },
                Some(p) => {
                    if p < m.len() {
                        assert(m2[p] == m[p]);
                        assert(false);
                    }
                    assert(m2[p] == (k, v));
                },
            }
        },
        Some(p) => {
            let m2 = m.update(p, (k, v));
            lemma_first_key_idx(m2, k, 0);
            match first_key_idx(m2, k, 0) {
                None => {
                    assert(m2[p].0 == k);
                    assert(false);
                },
                Some(q) => {
                    if q < p {
                        assert(m2[q] == m[q]);
                        assert(false);
                    }
                    if q > p {
                        assert(m2[p].0 == k);
                        assert(false);
                    }
                    assert(m2[q] == (k, v));
                },
            }
        },
    }
}

/// Parsed store text always carries distinct keys.
proof fn lemma_parse_lines_distinct(lines: Seq<Seq<char>>, i: int, acc: Seq<(Seq<char>, Val)>)
    requires
        keys_distinct(acc),
    ensures
        match parse_lines_spec(lines, i, acc) {
            Ok(r) => keys_distinct(r),
            Err(_) => true,
        },
    decreases lines.len() - i,
{
    if 0 <= i < lines.len() {
        let t = trim(lines[i]);
        match find_char(t, ':') {
            None => {
                lemma_parse_lines_distinct(lines, i + 1, acc);
            },
            Some(ci) => {
                match parse_value_spec(t.skip(ci + 1)) {
                    Err(_) => {},
                    Ok(v) => {
                        lemma_upsert_distinct(acc, t.take(ci), v);
                        lemma_parse_lines_distinct(lines, i + 1, upsert(acc, t.take(ci), v));
                    },
                }
            },
        }
    }
}

/// Writing a key into store text and reading the same key back through
/// the rendered text yields the written value, whatever else the store
/// holds — given store-fit entries throughout.
pub proof fn lemma_set_then_get(s: Seq<char>, k: Seq<char>, v: Val)
    requires
        match parse_store_spec(s) {
            Ok(m) => store_entries_ok(m),
            Err(_) => false,
        },
        store_entry_ok(k, v),
    ensures
        set_spec(s, k, v) matches Ok(out) && get_spec(out, k) == Ok::<Val, crate::errors::StoreError>(v),
{
    let m = match parse_store_spec(s) {
        Ok(m) => m,
        Err(_) => arbitrary(),
    };
    assert(keys_distinct(Seq::<(Seq<char>, Val)>::empty()));
    lemma_parse_lines_distinct(split_lines(s), 0, Seq::empty());
    let m2 = upsert(m, k, v);
    lemma_upsert_distinct(m, k, v);
    lemma_upsert_ok(m, k, v);
    lemma_store_round_trip(m2);
    lemma_lookup_upsert(m, k, v);
}

} // verus!
