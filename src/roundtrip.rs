//! Reading back what the serializer writes: values, row lines and whole
//! documents.
use vstd::prelude::*;
use crate::text::{split, is_white_space, trim};
use crate::model::{RefV, ValueV, nat_text, int_text, digit_char};
use crate::classify::{classify, is_digit, all_digits, digits_value, int_literal, is_i64_literal, is_float_literal, has_sign, exp_pos, is_mantissa, is_decimal};
use crate::serializer::{needs_quotes, string_text, value_text, escaped};
use crate::tokenizer::{tokenize, tokens_from, comment_start, unquoted_end, is_blank, backslash_run};
use crate::parser::{row_from, row_of};
use crate::laws::lemma_quoted_string_round_trip;

verus! {

pub proof fn lemma_split_no_sep(s: Seq<char>, sep: char)
    requires
        !s.contains(sep),
    ensures
        split(s, sep) == seq![s],
    decreases s.len(),
{
    if s.len() > 0 {
        assert(!s.drop_last().contains(sep)) by {
            if s.drop_last().contains(sep) {
                let k = choose|k: int| 0 <= k < s.drop_last().len() && s.drop_last()[k] == sep;
                assert(s[k] == sep);
            }
        }
        lemma_split_no_sep(s.drop_last(), sep);
        assert(s.last() != sep) by {
            assert(s[s.len() - 1] == s.last());
        }
        assert(s.drop_last().push(s.last()) =~= s);
    } else {
        assert(s =~= Seq::<char>::empty());
    }
}

pub proof fn lemma_split_concat(a: Seq<char>, sep: char, b: Seq<char>)
    ensures
        split(a + seq![sep] + b, sep) == split(a, sep) + split(b, sep),
    decreases b.len(),
{
    let c = a + seq![sep] + b;
    if b.len() == 0 {
        assert(c.drop_last() =~= a);
        assert(split(b, sep) =~= seq![Seq::<char>::empty()]);
        assert(split(a, sep).push(Seq::empty()) =~= split(a, sep) + split(b, sep));
    } else {
        lemma_split_concat(a, sep, b.drop_last());
        assert(c.drop_last() =~= a + seq![sep] + b.drop_last());
        assert(c.last() == b.last());
        let r = split(b.drop_last(), sep);
        assert(r.len() >= 1) by {
            lemma_split_len(b.drop_last(), sep);
        }
        if b.last() == sep {
            assert((split(a, sep) + r).push(Seq::empty()) =~= split(a, sep) + r.push(Seq::empty()));
        } else {
            let x = split(a, sep) + r;
            assert(x.update(x.len() - 1, x.last().push(b.last())) =~= split(a, sep) + r.update(
                r.len() - 1,
                r.last().push(b.last()),
            ));
        }
    }
}

pub proof fn lemma_split_len(s: Seq<char>, sep: char)
    ensures
        split(s, sep).len() >= 1,
    decreases s.len(),
{
    if s.len() > 0 {
        lemma_split_len(s.drop_last(), sep);
    }
}

proof fn lemma_digit_char(d: int)
    requires
        0 <= d < 10,
    ensures
        is_digit(digit_char(d)),
        (digit_char(d) as int) - ('0' as int) == d,
{
}

pub proof fn lemma_nat_text(n: nat)
    ensures
        all_digits(nat_text(n)),
        digits_value(nat_text(n)) == n,
    decreases n,
{
    if n < 10 {
        lemma_digit_char(n as int);
        let t = nat_text(n);
        assert(t.drop_last() =~= Seq::<char>::empty());
        assert(digits_value(t) == digits_value(t.drop_last()) * 10 + ((t.last() as int) - ('0' as int)));
    } else {
        lemma_nat_text(n / 10);
        lemma_digit_char((n % 10) as int);
        let t = nat_text(n);
        assert(t.drop_last() =~= nat_text(n / 10));
        assert(t.last() == digit_char((n % 10) as int));
        assert((n / 10) * 10 + n % 10 == n) by (nonlinear_arith);
        assert(digits_value(t) == digits_value(nat_text(n / 10)) * 10 + ((t.last() as int) - ('0' as int)));
        assert(forall|i: int| 0 <= i < t.len() ==> is_digit(#[trigger] t[i])) by {
            assert forall|i: int| 0 <= i < t.len() implies is_digit(#[trigger] t[i]) by {
                if i < t.len() - 1 {
                    assert(t[i] == nat_text(n / 10)[i]);
                }
            }
        }
    }
}

/// The decimal text of a 64-bit integer reads back as that integer.
pub proof fn lemma_int_text_reads_back(i: int)
    requires
        i64::MIN <= i <= i64::MAX,
    ensures
        is_i64_literal(int_text(i)),
        int_literal(int_text(i)) == Some(i),
        int_text(i).len() > 0,
        int_text(i)[0] == '-' || is_digit(int_text(i)[0]),
        forall|k: int| 0 <= k < int_text(i).len() ==> #[trigger] int_text(i)[k] == '-' || is_digit(int_text(i)[k]),
{
    if i < 0 {
        let m = (-i) as nat;
        lemma_nat_text(m);
        let t = int_text(i);
        assert(t.drop_first() =~= nat_text(m));
        assert(t[0] == '-');
        assert forall|k: int| 0 <= k < t.len() implies #[trigger] t[k] == '-' || is_digit(t[k]) by {
            if k > 0 {
                assert(t[k] == nat_text(m)[k - 1]);
            }
        }
    } else {
        lemma_nat_text(i as nat);
        let t = int_text(i);
        assert(is_digit(t[0]));
    }
}

proof fn lemma_exp_pos_digits(u: Seq<char>)
    requires
        forall|k: int| 0 <= k < u.len() ==> is_digit(#[trigger] u[k]),
    ensures
        exp_pos(u) == u.len(),
    decreases u.len(),
{
    if u.len() > 0 {
        assert(forall|k: int| 0 <= k < u.drop_first().len() ==> is_digit(#[trigger] u.drop_first()[k])) by {
            assert forall|k: int| 0 <= k < u.drop_first().len() implies is_digit(#[trigger] u.drop_first()[k]) by {
                assert(u.drop_first()[k] == u[k + 1]);
            }
        }
        lemma_exp_pos_digits(u.drop_first());
        assert(is_digit(u[0]));
    }
}

/// An integer literal is also a float literal.
pub proof fn lemma_int_is_float(t: Seq<char>)
    requires
        int_literal(t) is Some,
    ensures
        is_float_literal(t),
{
    let u = if has_sign(t) {
        t.drop_first()
    } else {
        t
    };
    assert(all_digits(u)) by {
        if t.len() > 0 && t[0] == '-' {
        } else {
            assert(t[0] != '+');
        }
    }
    lemma_exp_pos_digits(u);
    assert(u.take(u.len() as int) =~= u);
    assert(is_digit(u[0]));
    assert(is_mantissa(u)) by {
        assert forall|i: int, j: int| 0 <= i < u.len() && 0 <= j < u.len() && #[trigger] u[i] == '.'
            && #[trigger] u[j] == '.' implies i == j by {
            assert(is_digit(u[i]));
        }
    }
    assert(is_decimal(u));
}

} // verus!

verus! {

/// A character that can stand in an unquoted token and in a header: no
/// white space, no `#`, no `"`.
pub open spec fn safe_char(c: char) -> bool {
    !is_white_space(c) && c != '#' && c != '"'
}

pub open spec fn safe_text(s: Seq<char>) -> bool {
    forall|i: int| 0 <= i < s.len() ==> safe_char(#[trigger] s[i])
}

/// A reference whose id and type hold no `:` and only safe characters.
pub open spec fn plain_ref(r: RefV) -> bool {
    &&& !r.id.contains(':')
    &&& safe_text(r.id)
    &&& match r.ref_type {
        Some(t) => !t.contains(':') && safe_text(t),
        None => true,
    }
}

/// A value whose text reads back as itself: a string that is quoted, or
/// else non-empty, made of safe characters and not `~`; a float
/// whose safe literal reads back as that float; a plain reference.
pub open spec fn plain_value(v: ValueV) -> bool {
    match v {
        ValueV::Null => true,
        ValueV::Bool(_) => true,
        ValueV::Int(i) => i64::MIN <= i <= i64::MAX,
        ValueV::Float(t) => t.len() > 0 && safe_text(t) && classify((t, false)) == Some(
            ValueV::Float(t),
        ),
        ValueV::Str(s) => needs_quotes(s) || (s.len() > 0 && safe_text(s) && s != "~"@),
        ValueV::Ref(r) => plain_ref(r),
    }
}

/// The token that the text of a value reads as.
pub open spec fn cell_token(v: ValueV) -> (Seq<char>, bool) {
    match v {
        ValueV::Str(s) => (s, needs_quotes(s)),
        _ => (value_text(v), false),
    }
}

/// Whether the value is written between quotes.
pub open spec fn quoted_value(v: ValueV) -> bool {
    match v {
        ValueV::Str(s) => needs_quotes(s),
        _ => false,
    }
}

proof fn lemma_literals()
    ensures
        "null"@ == seq!['n', 'u', 'l', 'l'],
        "true"@ == seq!['t', 'r', 'u', 'e'],
        "false"@ == seq!['f', 'a', 'l', 's', 'e'],
        "~"@ == seq!['~'],
{
    reveal_strlit("null");
    reveal_strlit("true");
    reveal_strlit("false");
    reveal_strlit("~");
    assert("null"@ =~= seq!['n', 'u', 'l', 'l']);
    assert("true"@ =~= seq!['t', 'r', 'u', 'e']);
    assert("false"@ =~= seq!['f', 'a', 'l', 's', 'e']);
    assert("~"@ =~= seq!['~']);
}

proof fn lemma_escaped_no_newline(s: Seq<char>)
    ensures
        !escaped(s).contains('\n'),
    decreases s.len(),
{
    if s.len() > 0 {
        lemma_escaped_no_newline(s.drop_last());
        let a = escaped(s.drop_last());
        let e = crate::serializer::escape(s.last());
        if escaped(s).contains('\n') {
            let k = choose|k: int| 0 <= k < escaped(s).len() && escaped(s)[k] == '\n';
            if k < a.len() {
                assert(escaped(s)[k] == a[k]);
            } else {
                assert(escaped(s)[k] == e[k - a.len()]);
            }
        }
    }
}

/// A plain value's text reads back as that value and holds no line break;
/// an unquoted one is non-empty, holds no `#`, is made of safe characters or
/// `:`, and does not start with a quote.
pub proof fn lemma_value_reads_back(v: ValueV)
    requires
        plain_value(v),
    ensures
        classify(cell_token(v)) == Some(v),
        !quoted_value(v) ==> !value_text(v).contains('#'),
        !value_text(v).contains('\n'),
        !quoted_value(v) ==> value_text(v).len() > 0 && cell_token(v).0 == value_text(v) && forall|
            k: int,
        | 0 <= k < value_text(v).len() ==> !is_blank(#[trigger] value_text(v)[k]) && value_text(
            v,
        )[k] != '"' && !is_white_space(value_text(v)[k]),
        quoted_value(v) ==> needs_quotes(cell_token(v).0) && value_text(v) == string_text(
            cell_token(v).0,
        ) && cell_token(v).1,
{
    lemma_literals();
    let t = value_text(v);
    match v {
        ValueV::Null => {},
        ValueV::Bool(b) => {},
        ValueV::Int(i) => {
            lemma_int_text_reads_back(i);
            assert(t[0] != 'n' && t[0] != 't' && t[0] != 'f' && t[0] != '~' && t[0] != ':');
            assert(t != "null"@ && t != "true"@ && t != "false"@ && t != "~"@) by {
                if t == "null"@ {
                    assert(t[0] == 'n');
                }
                if t == "true"@ {
                    assert(t[0] == 't');
                }
                if t == "false"@ {
                    assert(t[0] == 'f');
                }
                if t == "~"@ {
                    assert(t[0] == '~');
                }
            }
            if t.contains('#') {
                let k = choose|k: int| 0 <= k < t.len() && t[k] == '#';
                assert(t[k] == '-' || is_digit(t[k]));
            }
        },
        ValueV::Float(f) => {
            if t.contains('#') {
                let k = choose|k: int| 0 <= k < t.len() && t[k] == '#';
                assert(safe_char(t[k]));
            }
        },
        ValueV::Str(s) => {
            if needs_quotes(s) {
                lemma_quoted_string_round_trip(s);
                lemma_escaped_no_newline(s);
                let b = escaped(s);
                assert(t == seq!['"'] + b + seq!['"']);
                if t.contains('\n') {
                    let k = choose|k: int| 0 <= k < t.len() && t[k] == '\n';
                    assert(0 < k < t.len() - 1);
                    assert(t[k] == b[k - 1]);
                }
            } else {
                assert(t == s);
                if t.contains('#') {
                    let k = choose|k: int| 0 <= k < t.len() && t[k] == '#';
                    assert(safe_char(t[k]));
                }
                if s.len() > 0 && s[0] == ':' {
                    assert(needs_quotes(s));
                }
                if is_i64_literal(s) {
                    lemma_int_is_float(s);
                }
            }
        },
        ValueV::Ref(r) => {
            assert(t[0] == ':');
            assert(t != "null"@ && t != "true"@ && t != "false"@ && t != "~"@) by {
                if t == "null"@ {
                    assert(t[0] == 'n');
                }
                if t == "true"@ {
                    assert(t[0] == 't');
                }
                if t == "false"@ {
                    assert(t[0] == 'f');
                }
                if t == "~"@ {
                    assert(t[0] == '~');
                }
            }
            match r.ref_type {
                Some(ty) => {
                    assert(t.drop_first() =~= ty + seq![':'] + r.id);
                    lemma_split_concat(ty, ':', r.id);
                    lemma_split_no_sep(ty, ':');
                    lemma_split_no_sep(r.id, ':');
                    assert(split(t.drop_first(), ':') =~= seq![ty, r.id]);
                    assert forall|k: int| 0 <= k < t.len() implies !is_blank(#[trigger] t[k]) && t[k]
                        != '"' && !is_white_space(t[k]) && t[k] != '#' by {
                        if 1 <= k < 1 + ty.len() {
                            assert(t[k] == ty[k - 1]);
                            assert(safe_char(ty[k - 1]));
                        } else if k > 1 + ty.len() {
                            assert(t[k] == r.id[k - 2 - ty.len()]);
                            assert(safe_char(r.id[k - 2 - ty.len()]));
                        }
                    }
                },
                None => {
                    assert(t.drop_first() =~= r.id);
                    lemma_split_no_sep(r.id, ':');
                    assert forall|k: int| 0 <= k < t.len() implies !is_blank(#[trigger] t[k]) && t[k]
                        != '"' && !is_white_space(t[k]) && t[k] != '#' by {
                        if k >= 1 {
                            assert(t[k] == r.id[k - 1]);
                            assert(safe_char(r.id[k - 1]));
                        }
                    }
                },
            }
        },
    }
}

} // verus!

verus! {

pub proof fn lemma_no_hash_no_comment(c: Seq<char>, i: int, q: bool)
    requires
        0 <= i,
        !c.contains('#'),
    ensures
        comment_start(c, i, q) == c.len(),
    decreases c.len() - i,
{
    if i < c.len() {
        assert(c[i] != '#');
        if crate::tokenizer::unescaped_quote(c, i) {
            lemma_no_hash_no_comment(c, i + 1, !q);
        } else {
            lemma_no_hash_no_comment(c, i + 1, q);
        }
    }
}

pub proof fn lemma_skip_blanks(c: Seq<char>, i: int, j: int)
    requires
        0 <= i <= j <= c.len(),
        forall|k: int| i <= k < j ==> is_blank(#[trigger] c[k]),
    ensures
        tokens_from(c, i) == tokens_from(c, j),
    decreases j - i,
{
    if i < j {
        lemma_skip_blanks(c, i + 1, j);
    }
}

proof fn lemma_unquoted_end_at(c: Seq<char>, i: int, e: int)
    requires
        0 <= i <= e <= c.len(),
        forall|k: int| i <= k < e ==> !is_blank(#[trigger] c[k]),
        e == c.len() || is_blank(c[e]),
    ensures
        unquoted_end(c, i) == e,
    decreases e - i,
{
    if i < e {
        lemma_unquoted_end_at(c, i + 1, e);
    }
}

/// The tokens from a position where the text of a plain value stands,
/// followed by a blank or the end.
pub proof fn lemma_cell_tokens(c: Seq<char>, i: int, v: ValueV)
    requires
        0 <= i,
        plain_value(v),
        i + value_text(v).len() <= c.len(),
        c.subrange(i, i + value_text(v).len()) == value_text(v),
        i + value_text(v).len() == c.len() || is_blank(c[i + value_text(v).len()]),
    ensures
        tokens_from(c, i) == seq![cell_token(v)] + tokens_from(c, i + value_text(v).len()),
{
    lemma_value_reads_back(v);
    let t = value_text(v);
    let n = t.len() as int;
    if quoted_value(v) {
        let s = cell_token(v).0;
        let b = escaped(s);
        assert(t == seq!['"'] + b + seq!['"']);
        assert(c[i] == t[0]);
        assert(c.subrange(i + 1, i + 1 + b.len()) =~= b) by {
            assert forall|k: int| 0 <= k < b.len() implies c[i + 1 + k] == b[k] by {
                assert(c.subrange(i, i + n)[1 + k] == t[1 + k]);
            }
        }
        assert(c[i + 1 + b.len()] == t[n - 1]);
        crate::laws::lemma_quoted_escaped(c, i + 1, s);
    } else {
        assert(c[i] == t[0]);
        assert forall|k: int| i <= k < i + n implies !is_blank(#[trigger] c[k]) by {
            assert(c[k] == c.subrange(i, i + n)[k - i]);
        }
        lemma_unquoted_end_at(c, i, i + n);
        assert(c.subrange(i, i + n) == t);
    }
}

/// `n` spaces.
pub open spec fn spaces(n: nat) -> Seq<char> {
    Seq::new(n, |k: int| ' ')
}

/// The text of each value, followed by its padding.
pub open spec fn padded(vs: Seq<ValueV>, pads: Seq<nat>) -> Seq<Seq<char>> {
    Seq::new(vs.len(), |k: int| value_text(vs[k]) + spaces(pads[k]))
}

pub proof fn lemma_join_cons(parts: Seq<Seq<char>>, sep: Seq<char>)
    requires
        parts.len() >= 2,
    ensures
        crate::serializer::join(parts, sep) == parts[0] + sep + crate::serializer::join(
            parts.drop_first(),
            sep,
        ),
    decreases parts.len(),
{
    if parts.len() == 2 {
        assert(parts.drop_last().len() == 1);
        assert(parts.drop_first().len() == 1);
        assert(parts.drop_first()[0] == parts[1]);
        assert(parts.drop_last()[0] == parts[0]);
        assert(crate::serializer::join(parts.drop_last(), sep) == parts[0]);
        assert(crate::serializer::join(parts.drop_first(), sep) == parts[1]);
        assert(crate::serializer::join(parts, sep) == crate::serializer::join(parts.drop_last(), sep) + sep + parts.last());
    } else {
        assert(crate::serializer::join(parts, sep) == crate::serializer::join(parts.drop_last(), sep) + sep + parts.last());
        lemma_join_cons(parts.drop_last(), sep);
        assert(parts.drop_last().drop_first() =~= parts.drop_first().drop_last());
        assert(parts.drop_first().last() == parts.last());
        assert(parts.drop_last()[0] == parts[0]);
        let j = crate::serializer::join(parts.drop_last().drop_first(), sep);
        assert(crate::serializer::join(parts.drop_first(), sep) == j + sep + parts.last());
        assert(parts[0] + sep + j + sep + parts.last() =~= parts[0] + sep + (j + sep + parts.last()));
    }
}

/// A line made of plain values, each padded with spaces and separated by
/// one space, reads as their tokens.
pub proof fn lemma_line_tokens(c: Seq<char>, i: int, vs: Seq<ValueV>, pads: Seq<nat>)
    requires
        0 <= i <= c.len(),
        vs.len() == pads.len(),
        vs.len() > 0,
        forall|k: int| 0 <= k < vs.len() ==> plain_value(#[trigger] vs[k]),
        c.subrange(i, c.len() as int) == crate::serializer::join(padded(vs, pads), seq![' ']),
    ensures
        tokens_from(c, i) == vs.map_values(|v: ValueV| cell_token(v)),
    decreases vs.len(),
{
    let parts = padded(vs, pads);
    let t = value_text(vs[0]);
    let n = t.len() as int;
    let p = pads[0] as int;
    assert(plain_value(vs[0]));
    if vs.len() == 1 {
        assert(crate::serializer::join(parts, seq![' ']) == parts[0]);
        assert(c.subrange(i, c.len() as int) == t + spaces(pads[0]));
        assert(c.subrange(i, i + n) =~= t) by {
            assert forall|k: int| 0 <= k < n implies c[i + k] == t[k] by {
                assert(c.subrange(i, c.len() as int)[k] == (t + spaces(pads[0]))[k]);
            }
        }
        assert forall|k: int| i + n <= k < c.len() implies is_blank(#[trigger] c[k]) by {
            assert(c.subrange(i, c.len() as int)[k - i] == (t + spaces(pads[0]))[k - i]);
        }
        lemma_cell_tokens(c, i, vs[0]);
        lemma_skip_blanks(c, i + n, c.len() as int);
        assert(tokens_from(c, c.len() as int) == Seq::<(Seq<char>, bool)>::empty());
        assert(vs.map_values(|v: ValueV| cell_token(v)) =~= seq![cell_token(vs[0])]);
    } else {
        lemma_join_cons(parts, seq![' ']);
        let rest = crate::serializer::join(parts.drop_first(), seq![' ']);
        let whole = t + spaces(pads[0]) + seq![' '] + rest;
        assert(c.subrange(i, c.len() as int) == whole);
        let j = i + n + p + 1;
        assert(c.subrange(i, i + n) =~= t) by {
            assert forall|k: int| 0 <= k < n implies c[i + k] == t[k] by {
                assert(c.subrange(i, c.len() as int)[k] == whole[k]);
            }
        }
        assert forall|k: int| i + n <= k < j implies is_blank(#[trigger] c[k]) by {
            assert(c.subrange(i, c.len() as int)[k - i] == whole[k - i]);
        }
        assert(c[i + n] == whole[n]);
        lemma_cell_tokens(c, i, vs[0]);
        lemma_skip_blanks(c, i + n, j);
        assert(padded(vs.drop_first(), pads.drop_first()) =~= parts.drop_first());
        assert(c.subrange(j, c.len() as int) =~= rest) by {
            assert forall|k: int| 0 <= k < rest.len() implies c[j + k] == rest[k] by {
                assert(c.subrange(i, c.len() as int)[j - i + k] == whole[j - i + k]);
            }
        }
        assert forall|k: int| 0 <= k < vs.drop_first().len() implies plain_value(#[trigger] vs.drop_first()[k]) by {
            assert(vs.drop_first()[k] == vs[k + 1]);
        }
        lemma_line_tokens(c, j, vs.drop_first(), pads.drop_first());
        assert(vs.map_values(|v: ValueV| cell_token(v)) =~= seq![cell_token(vs[0])]
            + vs.drop_first().map_values(|v: ValueV| cell_token(v)));
    }
}

} // verus!

verus! {

pub proof fn lemma_join_no_char(parts: Seq<Seq<char>>, sep: Seq<char>, x: char)
    requires
        forall|k: int| 0 <= k < parts.len() ==> !(#[trigger] parts[k]).contains(x),
        !sep.contains(x),
    ensures
        !crate::serializer::join(parts, sep).contains(x),
    decreases parts.len(),
{
    if parts.len() > 1 {
        let p = parts.drop_last();
        assert forall|k: int| 0 <= k < p.len() implies !(#[trigger] p[k]).contains(x) by {
            assert(p[k] == parts[k]);
        }
        lemma_join_no_char(p, sep, x);
        let a = crate::serializer::join(p, sep);
        let l = parts.last();
        assert(!parts[parts.len() - 1].contains(x));
        let j = a + sep + l;
        if j.contains(x) {
            let k = choose|k: int| 0 <= k < j.len() && j[k] == x;
            if k < a.len() {
                assert(j[k] == a[k]);
            } else if k < a.len() + sep.len() {
                assert(j[k] == sep[k - a.len()]);
            } else {
                assert(j[k] == l[k - a.len() - sep.len()]);
            }
        }
    } else if parts.len() == 1 {
        assert(!parts[0].contains(x));
    }
}

/// What a row holds for each field, a missing one read as null.
pub open spec fn row_values(fields: Seq<Seq<char>>, r: Map<Seq<char>, ValueV>) -> Seq<ValueV> {
    fields.map_values(|f: Seq<char>| if r.contains_key(f) {
        r[f]
    } else {
        ValueV::Null
    })
}

/// The row that holds `vals[k]` under `fields[k]` for each `k < n`.
pub open spec fn completed(fields: Seq<Seq<char>>, vals: Seq<ValueV>, n: int) -> Map<Seq<char>, ValueV>
    decreases n,
{
    if n <= 0 {
        Map::empty()
    } else {
        completed(fields, vals, n - 1).insert(fields[n - 1], vals[n - 1])
    }
}

/// Every value that the row holds for a field of the block is plain.
pub open spec fn plain_row(fields: Seq<Seq<char>>, r: Map<Seq<char>, ValueV>) -> bool {
    forall|f: Seq<char>| fields.contains(f) && #[trigger] r.contains_key(f) ==> plain_value(r[f])
}

proof fn lemma_row_from_completed(
    fields: Seq<Seq<char>>,
    vals: Seq<ValueV>,
    toks: Seq<(Seq<char>, bool)>,
    n: int,
)
    requires
        0 <= n <= fields.len(),
        vals.len() == fields.len(),
        toks.len() == fields.len(),
        forall|k: int| 0 <= k < fields.len() ==> classify(#[trigger] toks[k]) == Some(vals[k]),
    ensures
        row_from(fields, toks, n) == Ok::<Map<Seq<char>, ValueV>, int>(completed(fields, vals, n)),
    decreases n,
{
    if n > 0 {
        lemma_row_from_completed(fields, vals, toks, n - 1);
        assert(classify(toks[n - 1]) == Some(vals[n - 1]));
    }
}

/// A row line written for a block with at least one field reads back, token
/// by token, as the values the row holds for the fields (null for the
/// missing ones), and so as the row that holds them, when those values are
/// plain.
pub proof fn lemma_row_line_reads_back(b: crate::model::BlockV, r: Map<Seq<char>, ValueV>, align: bool)
    requires
        b.fields.len() > 0,
        plain_row(b.fields, r),
    ensures
        tokenize(crate::serializer::row_line(b, r, align)) == row_values(b.fields, r).map_values(
            |v: ValueV| cell_token(v),
        ),
        row_of(b.fields, tokenize(crate::serializer::row_line(b, r, align))) == Ok::<
            Map<Seq<char>, ValueV>,
            int,
        >(completed(b.fields, row_values(b.fields, r), b.fields.len() as int)),
        crate::serializer::row_line(b, r, align).len() > 0,
        crate::serializer::row_line(b, r, align)[0] != '#',
        !crate::serializer::row_line(b, r, align).contains('\n'),
        trim(crate::serializer::row_line(b, r, align)) == crate::serializer::row_line(b, r, align),
        tokenize(crate::serializer::row_line(b, r, align)).len() > 0,
{
    let n = b.fields.len() as int;
    let vals = row_values(b.fields, r);
    let cells = crate::serializer::row_cells(b, r, align);
    let pads = Seq::new(
        n as nat,
        |k: int|
            if align && k < n - 1 && value_text(vals[k]).len() < crate::serializer::col_width(b, k) {
                (crate::serializer::col_width(b, k) - value_text(vals[k]).len()) as nat
            } else {
                0nat
            },
    );
    assert forall|k: int| 0 <= k < n implies plain_value(#[trigger] vals[k]) by {
        let f = b.fields[k];
        assert(b.fields.contains(f));
        if r.contains_key(f) {
            assert(vals[k] == r[f]);
        }
    }
    assert(cells =~= padded(vals, pads)) by {
        assert forall|k: int| 0 <= k < n implies cells[k] == padded(vals, pads)[k] by {
            let f = b.fields[k];
            assert(crate::serializer::cell_text(r, f) == value_text(vals[k])) by {
                crate::roundtrip::lemma_literals();
            }
            let t = value_text(vals[k]);
            if align && k < n - 1 && t.len() < crate::serializer::col_width(b, k) {
                assert(cells[k] == crate::serializer::pad(t, crate::serializer::col_width(b, k)));
            } else {
                assert(t + spaces(0) =~= t);
            }
        }
    }
    let line = crate::serializer::row_line(b, r, align);
    assert(line == crate::serializer::join(padded(vals, pads), seq![' ']));
    assert forall|k: int| 0 <= k < n implies !(#[trigger] padded(vals, pads)[k]).contains('\n') by {
        lemma_value_reads_back(vals[k]);
        let t = value_text(vals[k]);
        let p = padded(vals, pads)[k];
        assert(p == t + spaces(pads[k]));
        if p.contains('\n') {
            let j = choose|j: int| 0 <= j < p.len() && p[j] == '\n';
            if j < t.len() {
                assert(p[j] == t[j]);
            } else {
                assert(p[j] == ' ');
            }
        }
    }
    assert(!seq![' '].contains('\n')) by {
        if seq![' '].contains('\n') {
            let j = choose|j: int| 0 <= j < 1 && seq![' '][j] == '\n';
        }
    }
    lemma_join_no_char(padded(vals, pads), seq![' '], '\n');
    assert(line.subrange(0, line.len() as int) =~= line);
    lemma_line_comment(line, 0, vals, pads);
    assert(line.take(line.len() as int) =~= line);
    lemma_line_tokens(line, 0, vals, pads);
    let toks = tokenize(line);
    assert forall|k: int| 0 <= k < n implies classify(#[trigger] toks[k]) == Some(vals[k]) by {
        lemma_value_reads_back(vals[k]);
    }
    lemma_row_from_completed(b.fields, vals, toks, n);
    let parts = padded(vals, pads);
    assert forall|k: int| 0 <= k < parts.len() implies (#[trigger] parts[k]).len() > 0 by {
        lemma_value_reads_back(vals[k]);
        if quoted_value(vals[k]) {
            assert(value_text(vals[k]) == string_text(cell_token(vals[k]).0));
        }
    }
    lemma_join_ends(parts, seq![' ']);
    lemma_value_reads_back(vals[0]);
    lemma_value_reads_back(vals[n - 1]);
    let t0 = value_text(vals[0]);
    let tl = value_text(vals[n - 1]);
    assert(parts[0][0] == t0[0]);
    assert(pads[n - 1] == 0);
    assert(parts[n - 1] =~= tl);
    assert(parts.last() == parts[n - 1]);
    if quoted_value(vals[0]) {
        crate::laws::lemma_quoted_string_round_trip(cell_token(vals[0]).0);
    } else if t0[0] == '#' {
        assert(t0.contains('#'));
    }
    if quoted_value(vals[n - 1]) {
        crate::laws::lemma_quoted_string_round_trip(cell_token(vals[n - 1]).0);
        assert(tl.last() == '"');
    } else {
        assert(tl.last() == tl[tl.len() - 1]);
    }
    lemma_trim_clean(line);
    assert(toks.len() == n);
}

} // verus!

verus! {

pub proof fn lemma_trim_clean(s: Seq<char>)
    requires
        s.len() > 0,
        !is_white_space(s[0]),
        !is_white_space(s.last()),
    ensures
        trim(s) == s,
{
    crate::text::lemma_lead_ws_is(s, 0);
    assert(s.subrange(0, s.len() as int) =~= s);
    crate::text::lemma_trail_ws_is(s, 0);
    assert(s.subrange(0, s.len() as int) =~= s);
}

pub proof fn lemma_trim_empty()
    ensures
        trim(Seq::<char>::empty()) == Seq::<char>::empty(),
{
    crate::text::lemma_lead_ws_bound(Seq::<char>::empty());
    crate::text::lemma_trail_ws_bound(Seq::<char>::empty());
    assert(trim(Seq::<char>::empty()) =~= Seq::<char>::empty());
}

/// A non-empty text of safe characters.
pub open spec fn plain_word(s: Seq<char>) -> bool {
    s.len() > 0 && safe_text(s)
}

/// A block kind or name that reads back from a header: non-empty, on one
/// line, without white space at either end.
pub open spec fn plain_name(s: Seq<char>) -> bool {
    &&& s.len() > 0
    &&& !is_white_space(s[0])
    &&& !is_white_space(s.last())
    &&& !s.contains('\n')
}

/// The header line of a block whose kind (without `.`, not starting with
/// `#`) and name are plain reads back as that kind and name.
pub proof fn lemma_header_reads_back(kind: Seq<char>, name: Seq<char>)
    requires
        plain_name(kind),
        kind[0] != '#',
        !kind.contains('.'),
        plain_name(name),
    ensures
        trim(kind + seq!['.'] + name) == kind + seq!['.'] + name,
        !crate::parser::skippable(kind + seq!['.'] + name),
        crate::parser::header_of(kind + seq!['.'] + name) == Some((kind, name)),
{
    let h = kind + seq!['.'] + name;
    assert(h[0] == kind[0]);
    assert(h.last() == name.last());
    lemma_trim_clean(h);
    assert forall|w: int| !crate::parser::pad_then_end_or_hash(h, w) by {
        if 0 < w <= h.len() && forall|k: int| 0 <= k < w ==> crate::parser::is_pad(#[trigger] h[k]) {
            assert(crate::parser::is_pad(h[0]));
        }
    }
    assert forall|k: int| 0 <= k < kind.len() implies #[trigger] h[k] != '.' by {
        assert(h[k] == kind[k]);
    }
    crate::parser::lemma_find(h, '.', kind.len() as int);
    assert(h.take(kind.len() as int) =~= kind);
    assert(h.subrange(kind.len() as int + 1, h.len() as int) =~= name);
    lemma_trim_clean(kind);
    lemma_trim_clean(name);
}

proof fn lemma_words_tokens(c: Seq<char>, i: int, ws: Seq<Seq<char>>)
    requires
        0 <= i <= c.len(),
        ws.len() > 0,
        forall|k: int| 0 <= k < ws.len() ==> (#[trigger] ws[k]).len() > 0 && ws[k][0] != '"' && forall|
            m: int,
        | 0 <= m < ws[k].len() ==> !is_blank(#[trigger] ws[k][m]),
        c.subrange(i, c.len() as int) == crate::serializer::join(ws, seq![' ']),
    ensures
        tokens_from(c, i) == ws.map_values(|w: Seq<char>| (w, false)),
    decreases ws.len(),
{
    let w = ws[0];
    let n = w.len() as int;
    assert(w.len() > 0 && w[0] != '"');
    if ws.len() == 1 {
        assert(crate::serializer::join(ws, seq![' ']) == w);
        assert(c.subrange(i, c.len() as int) == w);
        assert forall|k: int| i <= k < i + n implies !is_blank(#[trigger] c[k]) by {
            assert(c[k] == c.subrange(i, c.len() as int)[k - i]);
        }
        assert(c[i] == w[0]);
        lemma_unquoted_end_at(c, i, i + n);
        assert(c.subrange(i, i + n) =~= w);
        assert(!is_blank(c[i]));
        assert(tokens_from(c, i) == seq![(c.subrange(i, i + n), false)] + tokens_from(c, i + n));
        assert(tokens_from(c, c.len() as int) =~= Seq::<(Seq<char>, bool)>::empty());
        assert(ws.map_values(|w: Seq<char>| (w, false)) =~= seq![(w, false)]);
        assert(seq![(w, false)] + Seq::<(Seq<char>, bool)>::empty() =~= seq![(w, false)]);
    } else {
        lemma_join_cons(ws, seq![' ']);
        let rest = crate::serializer::join(ws.drop_first(), seq![' ']);
        let whole = w + seq![' '] + rest;
        assert(c.subrange(i, c.len() as int) == whole);
        assert forall|k: int| i <= k < i + n implies !is_blank(#[trigger] c[k]) by {
            assert(c[k] == c.subrange(i, c.len() as int)[k - i]);
            assert(whole[k - i] == w[k - i]);
        }
        assert(c[i + n] == whole[n]);
        assert(c[i] == whole[0]);
        lemma_unquoted_end_at(c, i, i + n);
        assert(c.subrange(i, i + n) =~= w) by {
            assert forall|k: int| 0 <= k < n implies c[i + k] == w[k] by {
                assert(c.subrange(i, c.len() as int)[k] == whole[k]);
            }
        }
        lemma_skip_blanks(c, i + n, i + n + 1);
        assert(!is_blank(c[i]));
        assert(tokens_from(c, i) == seq![(c.subrange(i, i + n), false)] + tokens_from(c, i + n));
        assert(c.subrange(i + n + 1, c.len() as int) =~= rest) by {
            assert forall|k: int| 0 <= k < rest.len() implies c[i + n + 1 + k] == rest[k] by {
                assert(c.subrange(i, c.len() as int)[n + 1 + k] == whole[n + 1 + k]);
            }
        }
        assert forall|k: int| 0 <= k < ws.drop_first().len() implies (#[trigger] ws.drop_first()[k]).len() > 0
            && ws.drop_first()[k][0] != '"' && forall|m: int| 0 <= m < ws.drop_first()[k].len() ==> !is_blank(
            #[trigger] ws.drop_first()[k][m],
        ) by {
            assert(ws.drop_first()[k] == ws[k + 1]);
        }
        lemma_words_tokens(c, i + n + 1, ws.drop_first());
        assert(ws.map_values(|w: Seq<char>| (w, false)) =~= seq![(w, false)] + ws.drop_first().map_values(
            |w: Seq<char>| (w, false),
        ));
    }
}

} // verus!

verus! {

/// A field declaration whose definition reads back as itself: a plain name
/// without `:`, a type of safe characters, and `is_computed` set exactly
/// for the type `computed`.
pub open spec fn plain_field(f: crate::model::FieldInfoV) -> bool {
    &&& plain_word(f.name)
    &&& !f.name.contains(':')
    &&& match f.field_type {
        Some(t) => safe_text(t),
        None => true,
    }
    &&& f.is_computed == (f.field_type == Some("computed"@))
}

proof fn lemma_def_text_word(f: crate::model::FieldInfoV)
    requires
        plain_field(f),
    ensures
        crate::serializer::def_text(f).len() > 0,
        crate::serializer::def_text(f)[0] == f.name[0],
        forall|m: int| 0 <= m < crate::serializer::def_text(f).len() ==> safe_char(#[trigger] crate::serializer::def_text(f)[m]) || crate::serializer::def_text(f)[m] == ':',
        crate::parser::field_def(crate::serializer::def_text(f)) == f,
{
    let d = crate::serializer::def_text(f);
    let n = f.name.len() as int;
    assert forall|k: int| 0 <= k < n implies #[trigger] d[k] != ':' by {
        assert(d[k] == f.name[k]);
        if f.name[k] == ':' {
            assert(f.name.contains(':'));
        }
    }
    match f.field_type {
        Some(t) => {
            assert(d == f.name + seq![':'] + t);
            assert(d[n] == ':');
            crate::parser::lemma_find(d, ':', n);
            assert(d.take(n) =~= f.name);
            assert(d.subrange(n + 1, d.len() as int) =~= t);
            assert forall|m: int| 0 <= m < d.len() implies safe_char(#[trigger] d[m]) || d[m] == ':' by {
                if m < n {
                    assert(d[m] == f.name[m]);
                } else if m > n {
                    assert(d[m] == t[m - n - 1]);
                }
            }
        },
        None => {
            crate::parser::lemma_find(d, ':', n);
        },
    }
}

/// The field definition line of a block with plain fields reads back as
/// the block's field declarations.
pub proof fn lemma_fields_line_reads_back(b: crate::model::BlockV)
    requires
        b.field_info.len() > 0,
        forall|k: int| 0 <= k < b.field_info.len() ==> plain_field(#[trigger] b.field_info[k]),
    ensures
        trim(crate::serializer::fields_line(b)) == crate::serializer::fields_line(b),
        !crate::parser::skippable(crate::serializer::fields_line(b)),
        crate::parser::field_defs(tokenize(crate::serializer::fields_line(b))) == b.field_info,
        !crate::serializer::fields_line(b).contains('\n'),
{
    let ws = b.field_info.map_values(|f: crate::model::FieldInfoV| crate::serializer::def_text(f));
    let line = crate::serializer::fields_line(b);
    assert forall|k: int| 0 <= k < ws.len() implies (#[trigger] ws[k]).len() > 0 && ws[k][0] != '"' && forall|
        m: int,
    | 0 <= m < ws[k].len() ==> !is_blank(#[trigger] ws[k][m]) by {
        lemma_def_text_word(b.field_info[k]);
        assert(plain_field(b.field_info[k]));
        assert(safe_char(b.field_info[k].name[0]));
        assert forall|m: int| 0 <= m < ws[k].len() implies !is_blank(#[trigger] ws[k][m]) by {
            assert(safe_char(ws[k][m]) || ws[k][m] == ':');
        }
    }
    assert forall|k: int| 0 <= k < ws.len() implies !(#[trigger] ws[k]).contains('#') by {
        lemma_def_text_word(b.field_info[k]);
        if ws[k].contains('#') {
            let m = choose|m: int| 0 <= m < ws[k].len() && ws[k][m] == '#';
            assert(safe_char(ws[k][m]) || ws[k][m] == ':');
        }
    }
    assert(!seq![' '].contains('#')) by {
        if seq![' '].contains('#') {
            let j = choose|j: int| 0 <= j < 1 && seq![' '][j] == '#';
        }
    }
    lemma_join_no_char(ws, seq![' '], '#');
    assert forall|k: int| 0 <= k < ws.len() implies !(#[trigger] ws[k]).contains('\n') by {
        lemma_def_text_word(b.field_info[k]);
        if ws[k].contains('\n') {
            let m = choose|m: int| 0 <= m < ws[k].len() && ws[k][m] == '\n';
            assert(safe_char(ws[k][m]) || ws[k][m] == ':');
        }
    }
    assert(!seq![' '].contains('\n')) by {
        if seq![' '].contains('\n') {
            let j = choose|j: int| 0 <= j < 1 && seq![' '][j] == '\n';
        }
    }
    lemma_join_no_char(ws, seq![' '], '\n');
    lemma_no_hash_no_comment(line, 0, false);
    assert(line.take(line.len() as int) =~= line);
    assert(line.subrange(0, line.len() as int) =~= line);
    lemma_words_tokens(line, 0, ws);
    let toks = tokenize(line);
    assert(crate::parser::field_defs(toks) =~= b.field_info) by {
        assert forall|k: int| 0 <= k < b.field_info.len() implies crate::parser::field_defs(toks)[k] == b.field_info[k] by {
            lemma_def_text_word(b.field_info[k]);
        }
    }
    // the line starts with the first name and ends with the last definition
    lemma_join_ends(ws, seq![' ']);
    lemma_def_text_word(b.field_info[0]);
    lemma_def_text_word(b.field_info[b.field_info.len() - 1]);
    let first = ws[0];
    let last = ws[ws.len() - 1];
    assert(line[0] == first[0]);
    assert(line.last() == last.last());
    assert(safe_char(last[last.len() - 1]) || last[last.len() - 1] == ':');
    assert(safe_char(b.field_info[0].name[0]));
    lemma_trim_clean(line);
    assert forall|w: int| !crate::parser::pad_then_end_or_hash(line, w) by {
        if 0 < w <= line.len() && forall|k: int| 0 <= k < w ==> crate::parser::is_pad(#[trigger] line[k]) {
            assert(crate::parser::is_pad(line[0]));
        }
    }
}

/// A join of non-empty parts starts with the first part's first character
/// and ends with the last part's last one.
pub proof fn lemma_join_ends(parts: Seq<Seq<char>>, sep: Seq<char>)
    requires
        parts.len() > 0,
        forall|k: int| 0 <= k < parts.len() ==> (#[trigger] parts[k]).len() > 0,
    ensures
        crate::serializer::join(parts, sep).len() > 0,
        crate::serializer::join(parts, sep)[0] == parts[0][0],
        crate::serializer::join(parts, sep).last() == parts.last().last(),
    decreases parts.len(),
{
    if parts.len() > 1 {
        let p = parts.drop_last();
        assert forall|k: int| 0 <= k < p.len() implies (#[trigger] p[k]).len() > 0 by {
            assert(p[k] == parts[k]);
        }
        lemma_join_ends(p, sep);
        assert(parts.last().len() > 0);
        assert(parts[parts.len() - 1] == parts.last());
    } else {
        assert(parts[0].len() > 0);
    }
}

} // verus!

verus! {

/// The row that a written row reads back as: every field of the block
/// present, a missing value as null.
pub open spec fn reread_row(fields: Seq<Seq<char>>, r: Map<Seq<char>, ValueV>) -> Map<Seq<char>, ValueV> {
    completed(fields, row_values(fields, r), fields.len() as int)
}

/// A row whose line reads back: plain values, and a line that neither
/// looks like a header (a letter first and a `.` in it) nor is `---`.
pub open spec fn row_ok(b: crate::model::BlockV, r: Map<Seq<char>, ValueV>, align: bool) -> bool {
    &&& plain_row(b.fields, r)
    &&& !crate::parser::ends_block(crate::serializer::row_line(b, r, align))
    &&& crate::serializer::row_line(b, r, align) != "---"@
}

proof fn lemma_rows_read(
    ls: Seq<Seq<char>>,
    k: int,
    b: crate::model::BlockV,
    rs: Seq<Map<Seq<char>, ValueV>>,
    align: bool,
    in_summary: bool,
    acc_r: crate::parser::Rows,
    acc_s: crate::parser::Rows,
)
    requires
        0 <= k,
        k + rs.len() <= ls.len(),
        b.fields.len() > 0,
        forall|j: int| 0 <= j < rs.len() ==> ls[k + j] == crate::serializer::row_line(b, #[trigger] rs[j], align),
        forall|j: int| 0 <= j < rs.len() ==> row_ok(b, #[trigger] rs[j], align),
    ensures
        crate::parser::rows_from(ls, k, b.fields, in_summary, acc_r, acc_s) == crate::parser::rows_from(
            ls,
            k + rs.len(),
            b.fields,
            in_summary,
            if in_summary {
                acc_r
            } else {
                acc_r + rs.map_values(|r: Map<Seq<char>, ValueV>| reread_row(b.fields, r))
            },
            if in_summary {
                acc_s + rs.map_values(|r: Map<Seq<char>, ValueV>| reread_row(b.fields, r))
            } else {
                acc_s
            },
        ),
    decreases rs.len(),
{
    let f = |r: Map<Seq<char>, ValueV>| reread_row(b.fields, r);
    if rs.len() == 0 {
        assert(acc_r + rs.map_values(f) =~= acc_r);
        assert(acc_s + rs.map_values(f) =~= acc_s);
    } else {
        let r = rs[0];
        let l = ls[k];
        assert(l == crate::serializer::row_line(b, r, align));
        assert(row_ok(b, r, align));
        lemma_row_line_reads_back(b, r, align);

        let rest = rs.drop_first();
        assert forall|j: int| 0 <= j < rest.len() implies ls[k + 1 + j] == crate::serializer::row_line(b, #[trigger] rest[j], align) by {
            assert(rest[j] == rs[j + 1]);
        }
        assert forall|j: int| 0 <= j < rest.len() implies row_ok(b, #[trigger] rest[j], align) by {
            assert(rest[j] == rs[j + 1]);
        }
        let rr = reread_row(b.fields, r);
        if in_summary {
            lemma_rows_read(ls, k + 1, b, rest, align, in_summary, acc_r, acc_s.push(rr));
            assert(acc_s.push(rr) + rest.map_values(f) =~= acc_s + rs.map_values(f));
        } else {
            lemma_rows_read(ls, k + 1, b, rest, align, in_summary, acc_r.push(rr), acc_s);
            assert(acc_r.push(rr) + rest.map_values(f) =~= acc_r + rs.map_values(f));
        }
    }
}

/// A block whose text reads back: plain kind (without `.`, not starting
/// with `#`) and name, at least one field, plain field declarations in step
/// with the field names, and rows whose lines read back.
pub open spec fn plain_block(b: crate::model::BlockV, align: bool) -> bool {
    &&& plain_name(b.kind)
    &&& b.kind[0] != '#'
    &&& !b.kind.contains('.')
    &&& plain_name(b.name)
    &&& b.fields.len() > 0
    &&& crate::model::block_wf(b)
    &&& forall|k: int| 0 <= k < b.field_info.len() ==> plain_field(#[trigger] b.field_info[k])
    &&& forall|j: int| 0 <= j < b.rows.len() ==> row_ok(b, #[trigger] b.rows[j], align)
    &&& forall|j: int| 0 <= j < b.summary_rows.len() ==> row_ok(b, #[trigger] b.summary_rows[j], align)
}

/// What a plain block reads back as: its rows completed with nulls.
pub open spec fn reread_block(b: crate::model::BlockV) -> crate::model::BlockV {
    crate::model::BlockV {
        rows: b.rows.map_values(|r: Map<Seq<char>, ValueV>| reread_row(b.fields, r)),
        summary_rows: b.summary_rows.map_values(|r: Map<Seq<char>, ValueV>| reread_row(b.fields, r)),
        ..b
    }
}

proof fn lemma_dashes()
    ensures
        "---"@ == seq!['-', '-', '-'],
{
    reveal_strlit("---");
    assert("---"@ =~= seq!['-', '-', '-']);
}

proof fn lemma_block_read(ls: Seq<Seq<char>>, i: int, b: crate::model::BlockV, align: bool)
    requires
        plain_block(b, align),
        0 <= i,
        i + crate::serializer::block_lines(b, align).len() <= ls.len(),
        forall|j: int| 0 <= j < crate::serializer::block_lines(b, align).len() ==> ls[i + j]
            == #[trigger] crate::serializer::block_lines(b, align)[j],
        i + crate::serializer::block_lines(b, align).len() == ls.len() || ls[i
            + crate::serializer::block_lines(b, align).len()] == Seq::<char>::empty(),
    ensures
        crate::parser::blocks_from(ls, i) == crate::parser::prepend(
            reread_block(b),
            crate::parser::blocks_from(ls, i + crate::serializer::block_lines(b, align).len()),
        ),
{
    let lines = crate::serializer::block_lines(b, align);
    let nl = lines.len() as int;
    let nr = b.rows.len() as int;
    let ns = b.summary_rows.len() as int;
    let end = i + nl;
    let f = |r: Map<Seq<char>, ValueV>| reread_row(b.fields, r);
    lemma_header_reads_back(b.kind, b.name);
    assert(ls[i] == lines[0]);
    assert(ls[i + 1] == lines[1]);
    lemma_fields_line_reads_back(b);
    assert(crate::parser::next_content(ls, i + 1) == i + 1);
    let defs = crate::parser::field_defs(tokenize(trim(ls[i + 1])));
    assert(defs == b.field_info);
    assert(crate::parser::field_names(defs) =~= b.fields);
    assert forall|j: int| 0 <= j < b.rows.len() implies ls[i + 2 + j] == crate::serializer::row_line(b, #[trigger] b.rows[j], align) by {
        assert(ls[i + 2 + j] == lines[2 + j]);
    }
    lemma_rows_read(ls, i + 2, b, b.rows, align, false, Seq::empty(), Seq::empty());
    let rows2 = Seq::<Map<Seq<char>, ValueV>>::empty() + b.rows.map_values(f);
    assert(rows2 =~= b.rows.map_values(f));
    let k = i + 2 + nr;
    lemma_trim_empty();
    if ns == 0 {
        assert(nl == 2 + nr);
        assert(crate::parser::rows_from(ls, k, b.fields, false, rows2, Seq::empty()) == Ok::<
            (crate::parser::Rows, crate::parser::Rows, int),
            crate::parser::ErrorV,
        >((rows2, Seq::empty(), k)));
        assert(b.summary_rows.map_values(f) =~= Seq::empty());
    } else {
        assert(nl == 3 + nr + ns);
        assert(ls[k] == lines[2 + nr]);
        assert(lines[2 + nr] == "---"@);
        lemma_dashes();
        lemma_trim_clean(ls[k]);
        assert(!ls[k].contains('.')) by {
            if ls[k].contains('.') {
                let m = choose|m: int| 0 <= m < ls[k].len() && ls[k][m] == '.';
            }
        }
        assert forall|j: int| 0 <= j < b.summary_rows.len() implies ls[k + 1 + j] == crate::serializer::row_line(b, #[trigger] b.summary_rows[j], align) by {
            assert(ls[k + 1 + j] == lines[3 + nr + j]);
        }
        lemma_rows_read(ls, k + 1, b, b.summary_rows, align, true, rows2, Seq::empty());
        let sum2 = Seq::<Map<Seq<char>, ValueV>>::empty() + b.summary_rows.map_values(f);
        assert(sum2 =~= b.summary_rows.map_values(f));
        assert(crate::parser::rows_from(ls, end, b.fields, true, rows2, sum2) == Ok::<
            (crate::parser::Rows, crate::parser::Rows, int),
            crate::parser::ErrorV,
        >((rows2, sum2, end)));
    }
    assert(crate::parser::block_of(b.kind, b.name, defs, b.rows.map_values(f), b.summary_rows.map_values(f)) == reread_block(b));
}

} // verus!

verus! {

/// The lines of a written document: each block's lines, an empty line
/// between each two blocks.
pub open spec fn doc_lines(d: Seq<crate::model::BlockV>, align: bool) -> Seq<Seq<char>>
    decreases d.len(),
{
    if d.len() == 0 {
        seq![Seq::empty()]
    } else if d.len() == 1 {
        crate::serializer::block_lines(d[0], align)
    } else {
        crate::serializer::block_lines(d[0], align) + seq![Seq::<char>::empty()] + doc_lines(
            d.drop_first(),
            align,
        )
    }
}

proof fn lemma_split_join(parts: Seq<Seq<char>>)
    requires
        parts.len() > 0,
        forall|k: int| 0 <= k < parts.len() ==> !(#[trigger] parts[k]).contains('\n'),
    ensures
        split(crate::serializer::join(parts, seq!['\n']), '\n') == parts,
    decreases parts.len(),
{
    if parts.len() == 1 {
        lemma_split_no_sep(parts[0], '\n');
        assert(seq![parts[0]] =~= parts);
    } else {
        let p = parts.drop_last();
        assert forall|k: int| 0 <= k < p.len() implies !(#[trigger] p[k]).contains('\n') by {
            assert(p[k] == parts[k]);
        }
        lemma_split_join(p);
        lemma_split_concat(crate::serializer::join(p, seq!['\n']), '\n', parts.last());
        assert(crate::serializer::join(p, seq!['\n']) + seq!['\n'] + parts.last() == crate::serializer::join(parts, seq!['\n']));
        assert(!parts[parts.len() - 1].contains('\n'));
        lemma_split_no_sep(parts.last(), '\n');
        assert(p + seq![parts.last()] =~= parts);
    }
}

proof fn lemma_block_lines_clean(b: crate::model::BlockV, align: bool)
    requires
        plain_block(b, align),
    ensures
        forall|k: int| 0 <= k < crate::serializer::block_lines(b, align).len() ==> !(
        #[trigger] crate::serializer::block_lines(b, align)[k]).contains('\n'),
        split(crate::serializer::block_text(b, align), '\n') == crate::serializer::block_lines(b, align),
{
    let lines = crate::serializer::block_lines(b, align);
    let nr = b.rows.len() as int;
    assert forall|k: int| 0 <= k < lines.len() implies !(#[trigger] lines[k]).contains('\n') by {
        if k == 0 {
            let h = b.kind + seq!['.'] + b.name;
            assert(lines[0] == h);
            if h.contains('\n') {
                let m = choose|m: int| 0 <= m < h.len() && h[m] == '\n';
                if m < b.kind.len() {
                    assert(h[m] == b.kind[m]);
                } else if m > b.kind.len() {
                    assert(h[m] == b.name[m - b.kind.len() - 1]);
                }
            }
        } else if k == 1 {
            lemma_fields_line_reads_back(b);
        } else if k < 2 + nr {
            lemma_row_line_reads_back(b, b.rows[k - 2], align);
            assert(row_ok(b, b.rows[k - 2], align));
        } else if k == 2 + nr {
            lemma_dashes();
            if lines[k].contains('\n') {
                let m = choose|m: int| 0 <= m < lines[k].len() && lines[k][m] == '\n';
            }
        } else {
            let j = k - 3 - nr;
            assert(row_ok(b, b.summary_rows[j], align));
            lemma_row_line_reads_back(b, b.summary_rows[j], align);
        }
    }
    lemma_split_join(lines);
}

proof fn lemma_doc_lines_split(d: Seq<crate::model::BlockV>, align: bool)
    requires
        d.len() > 0,
        forall|k: int| 0 <= k < d.len() ==> plain_block(#[trigger] d[k], align),
    ensures
        split(crate::serializer::document_text(d, align), '\n') == doc_lines(d, align),
    decreases d.len(),
{
    let texts = d.map_values(|b: crate::model::BlockV| crate::serializer::block_text(b, align));
    lemma_block_lines_clean(d[0], align);
    if d.len() == 1 {
        assert(crate::serializer::join(texts, seq!['\n', '\n']) == texts[0]);
    } else {
        let rest = d.drop_first();
        assert forall|k: int| 0 <= k < rest.len() implies plain_block(#[trigger] rest[k], align) by {
            assert(rest[k] == d[k + 1]);
        }
        lemma_doc_lines_split(rest, align);
        lemma_join_cons(texts, seq!['\n', '\n']);
        assert(texts.drop_first() =~= rest.map_values(|b: crate::model::BlockV| crate::serializer::block_text(b, align)));
        let tail = crate::serializer::join(texts.drop_first(), seq!['\n', '\n']);
        let a = texts[0];
        assert(a + seq!['\n', '\n'] + tail =~= (a + seq!['\n'] + Seq::<char>::empty()) + seq!['\n'] + tail);
        lemma_split_concat(a + seq!['\n'] + Seq::<char>::empty(), '\n', tail);
        lemma_split_concat(a, '\n', Seq::<char>::empty());
        assert(split(Seq::<char>::empty(), '\n') =~= seq![Seq::<char>::empty()]);
    }
}

proof fn lemma_doc_read(ls: Seq<Seq<char>>, i: int, d: Seq<crate::model::BlockV>, align: bool)
    requires
        0 <= i <= ls.len(),
        d.len() > 0,
        forall|k: int| 0 <= k < d.len() ==> plain_block(#[trigger] d[k], align),
        ls.subrange(i, ls.len() as int) == doc_lines(d, align),
    ensures
        crate::parser::blocks_from(ls, i) == Ok::<Seq<crate::model::BlockV>, crate::parser::ErrorV>(
            d.map_values(|b: crate::model::BlockV| reread_block(b)),
        ),
    decreases d.len(),
{
    let lines = crate::serializer::block_lines(d[0], align);
    let nl = lines.len() as int;
    assert(plain_block(d[0], align));
    if d.len() == 1 {
        assert(doc_lines(d, align) == lines);
    } else {
        assert(doc_lines(d, align) == lines + seq![Seq::<char>::empty()] + doc_lines(d.drop_first(), align));
    }
    assert(doc_lines(d, align).len() >= nl);
    assert forall|j: int| 0 <= j < nl implies ls[i + j] == #[trigger] lines[j] by {
        assert(ls.subrange(i, ls.len() as int)[j] == ls[i + j]);
        assert(doc_lines(d, align)[j] == lines[j]);
    }
    if d.len() == 1 {
        assert(i + nl == ls.len());
        lemma_block_read(ls, i, d[0], align);
        assert(crate::parser::blocks_from(ls, i + nl) == Ok::<Seq<crate::model::BlockV>, crate::parser::ErrorV>(Seq::empty()));
        assert(seq![reread_block(d[0])] + Seq::<crate::model::BlockV>::empty() =~= d.map_values(|b: crate::model::BlockV| reread_block(b)));
    } else {
        let rest = d.drop_first();
        assert(ls.subrange(i, ls.len() as int)[nl] == ls[i + nl]);
        assert(ls[i + nl] == doc_lines(d, align)[nl]);
        lemma_block_read(ls, i, d[0], align);
        // the empty line between the blocks is skipped
        assert(crate::parser::pad_then_end_or_hash(ls[i + nl], 0));
        assert(crate::parser::blocks_from(ls, i + nl) == crate::parser::blocks_from(ls, i + nl + 1));
        assert forall|k: int| 0 <= k < rest.len() implies plain_block(#[trigger] rest[k], align) by {
            assert(rest[k] == d[k + 1]);
        }
        assert(ls.subrange(i + nl + 1, ls.len() as int) =~= doc_lines(rest, align)) by {
            let full = doc_lines(d, align);
            assert(full == lines + seq![Seq::<char>::empty()] + doc_lines(rest, align));
            assert forall|j: int| 0 <= j < doc_lines(rest, align).len() implies ls.subrange(i + nl + 1, ls.len() as int)[j] == doc_lines(rest, align)[j] by {
                assert(ls.subrange(i, ls.len() as int)[nl + 1 + j] == full[nl + 1 + j]);
            }
        }
        lemma_doc_read(ls, i + nl + 1, rest, align);
        assert(seq![reread_block(d[0])] + rest.map_values(|b: crate::model::BlockV| reread_block(b)) =~= d.map_values(|b: crate::model::BlockV| reread_block(b)));
    }
}

/// Reading back what the serializer writes gives the same blocks: same
/// kinds, names, fields, field declarations, and rows holding the same
/// values for the block's fields, a value missing from a row now read as an
/// explicit null. This holds for documents whose blocks are plain (see
/// `plain_block`): among others it fails for a row line that starts with a
/// letter and holds a `.`, which reads as the header of a next block.
pub proof fn lemma_round_trip(d: Seq<crate::model::BlockV>, align: bool)
    requires
        forall|k: int| 0 <= k < d.len() ==> plain_block(#[trigger] d[k], align),
    ensures
        crate::parser::parse_spec(crate::serializer::document_text(d, align)) == Ok::<
            Seq<crate::model::BlockV>,
            crate::parser::ErrorV,
        >(d.map_values(|b: crate::model::BlockV| reread_block(b))),
{
    if d.len() == 0 {
        let text = crate::serializer::document_text(d, align);
        assert(text == Seq::<char>::empty());
        let ls = split(text, '\n');
        assert(ls == seq![Seq::<char>::empty()]);
        assert(crate::parser::pad_then_end_or_hash(ls[0], 0));
        assert(crate::parser::skippable(ls[0]));
        assert(crate::parser::blocks_from(ls, 1) == Ok::<Seq<crate::model::BlockV>, crate::parser::ErrorV>(Seq::empty()));
        assert(d.map_values(|b: crate::model::BlockV| reread_block(b)) =~= Seq::empty());
    } else {
        lemma_doc_lines_split(d, align);
        let ls = split(crate::serializer::document_text(d, align), '\n');
        assert(ls.subrange(0, ls.len() as int) =~= ls);
        lemma_doc_read(ls, 0, d, align);
    }
}

} // verus!

verus! {

proof fn lemma_word_end_at(c: Seq<char>, i: int, e: int)
    requires
        0 <= i <= e <= c.len(),
        forall|k: int| i <= k < e ==> !is_white_space(#[trigger] c[k]),
        e == c.len() || is_white_space(c[e]),
    ensures
        crate::isonl::word_end(c, i) == e,
    decreases e - i,
{
    if i < e {
        lemma_word_end_at(c, i + 1, e);
    }
}

proof fn lemma_words_join(c: Seq<char>, i: int, ws: Seq<Seq<char>>)
    requires
        0 <= i <= c.len(),
        ws.len() > 0,
        forall|k: int| 0 <= k < ws.len() ==> (#[trigger] ws[k]).len() > 0 && forall|m: int|
            0 <= m < ws[k].len() ==> !is_white_space(#[trigger] ws[k][m]),
        c.subrange(i, c.len() as int) == crate::serializer::join(ws, seq![' ']),
    ensures
        crate::isonl::words_from(c, i) == ws,
    decreases ws.len(),
{
    let w = ws[0];
    let n = w.len() as int;
    if ws.len() == 1 {
        assert(crate::serializer::join(ws, seq![' ']) == w);
        assert forall|k: int| i <= k < i + n implies !is_white_space(#[trigger] c[k]) by {
            assert(c[k] == c.subrange(i, c.len() as int)[k - i]);
        }
        lemma_word_end_at(c, i, i + n);
        assert(c.subrange(i, i + n) =~= w);
        assert(!is_white_space(c[i]));
        assert(crate::isonl::words_from(c, c.len() as int) =~= Seq::<Seq<char>>::empty());
        assert(seq![w] + Seq::<Seq<char>>::empty() =~= ws);
    } else {
        lemma_join_cons(ws, seq![' ']);
        let rest = crate::serializer::join(ws.drop_first(), seq![' ']);
        let whole = w + seq![' '] + rest;
        assert(c.subrange(i, c.len() as int) == whole);
        assert forall|k: int| i <= k < i + n implies !is_white_space(#[trigger] c[k]) by {
            assert(c[k] == c.subrange(i, c.len() as int)[k - i]);
            assert(whole[k - i] == w[k - i]);
        }
        assert(c[i + n] == whole[n]);
        assert(c[i] == whole[0]);
        lemma_word_end_at(c, i, i + n);
        assert(c.subrange(i, i + n) =~= w) by {
            assert forall|k: int| 0 <= k < n implies c[i + k] == w[k] by {
                assert(c.subrange(i, c.len() as int)[k] == whole[k]);
            }
        }
        assert(c.subrange(i + n + 1, c.len() as int) =~= rest) by {
            assert forall|k: int| 0 <= k < rest.len() implies c[i + n + 1 + k] == rest[k] by {
                assert(c.subrange(i, c.len() as int)[n + 1 + k] == whole[n + 1 + k]);
            }
        }
        assert forall|k: int| 0 <= k < ws.drop_first().len() implies (#[trigger] ws.drop_first()[k]).len() > 0
            && forall|m: int| 0 <= m < ws.drop_first()[k].len() ==> !is_white_space(#[trigger] ws.drop_first()[k][m]) by {
            assert(ws.drop_first()[k] == ws[k + 1]);
        }
        lemma_words_join(c, i + n + 1, ws.drop_first());
        assert(crate::isonl::words_from(c, i) == seq![w] + crate::isonl::words_from(c, i + n));
        assert(is_white_space(c[i + n]));
        assert(seq![w] + ws.drop_first() =~= ws);
    }
}

/// The fields line of a plain block splits at white space into the
/// definitions of its fields.
proof fn lemma_fields_line_words(b: crate::model::BlockV)
    requires
        b.field_info.len() > 0,
        forall|k: int| 0 <= k < b.field_info.len() ==> plain_field(#[trigger] b.field_info[k]),
    ensures
        crate::isonl::words(crate::serializer::fields_line(b)).map_values(|w: Seq<char>| crate::parser::field_def(w))
            == b.field_info,
{
    let ws = b.field_info.map_values(|f: crate::model::FieldInfoV| crate::serializer::def_text(f));
    let line = crate::serializer::fields_line(b);
    assert forall|k: int| 0 <= k < ws.len() implies (#[trigger] ws[k]).len() > 0 && forall|m: int|
        0 <= m < ws[k].len() ==> !is_white_space(#[trigger] ws[k][m]) by {
        lemma_def_text_word(b.field_info[k]);
        assert forall|m: int| 0 <= m < ws[k].len() implies !is_white_space(#[trigger] ws[k][m]) by {
            assert(safe_char(ws[k][m]) || ws[k][m] == ':');
        }
    }
    assert(line.subrange(0, line.len() as int) =~= line);
    lemma_words_join(line, 0, ws);
    assert(ws.map_values(|w: Seq<char>| crate::parser::field_def(w)) =~= b.field_info) by {
        assert forall|k: int| 0 <= k < ws.len() implies ws.map_values(|w: Seq<char>| crate::parser::field_def(w))[k] == b.field_info[k] by {
            lemma_def_text_word(b.field_info[k]);
        }
    }
}

/// A block without `|` in its header, field line or row lines.
pub open spec fn pipe_free(b: crate::model::BlockV) -> bool {
    &&& !(b.kind + seq!['.'] + b.name).contains('|')
    &&& !crate::serializer::fields_line(b).contains('|')
    &&& forall|j: int| 0 <= j < b.rows.len() ==> !crate::serializer::row_line(b, #[trigger] b.rows[j], false).contains('|')
}

/// The block that ISONL has read after the first `j` rows of `b`.
pub open spec fn isonl_partial(b: crate::model::BlockV, j: int) -> crate::model::BlockV {
    crate::model::BlockV {
        rows: b.rows.take(j).map_values(|r: Map<Seq<char>, ValueV>| reread_row(b.fields, r)),
        summary_rows: Seq::empty(),
        ..b
    }
}

proof fn lemma_isonl_record(b: crate::model::BlockV, j: int, line: int, acc: Seq<crate::model::BlockV>)
    requires
        plain_block(b, true),
        pipe_free(b),
        0 <= j < b.rows.len(),
        j == 0 ==> acc.len() == 0,
        j > 0 ==> acc == seq![isonl_partial(b, j)],
    ensures
        crate::isonl::isonl_record(crate::isonl::isonl_line(b, b.rows[j]), line, acc) == Ok::<
            Seq<crate::model::BlockV>,
            crate::parser::ErrorV,
        >(seq![isonl_partial(b, j + 1)]),
{
    let h = b.kind + seq!['.'] + b.name;
    let fl = crate::serializer::fields_line(b);
    let r = b.rows[j];
    let rl = crate::serializer::row_line(b, r, false);
    let l = crate::isonl::isonl_line(b, r);
    assert(l =~= h + seq!['|'] + fl + seq!['|'] + rl);
    lemma_split_concat(h + seq!['|'] + fl, '|', rl);
    lemma_split_concat(h, '|', fl);
    lemma_split_no_sep(h, '|');
    lemma_split_no_sep(fl, '|');
    lemma_split_no_sep(rl, '|');
    let parts = split(l, '|');
    assert(parts =~= seq![h, fl, rl]);
    lemma_header_reads_back(b.kind, b.name);
    assert(row_ok(b, r, true));
    lemma_row_line_reads_back(b, r, false);
    let f = |x: Map<Seq<char>, ValueV>| reread_row(b.fields, x);
    assert(b.rows.take(j + 1) =~= b.rows.take(j).push(r));
    assert(b.rows.take(j + 1).map_values(f) =~= b.rows.take(j).map_values(f).push(reread_row(b.fields, r)));
    if j == 0 {
        assert(crate::isonl::block_index(acc, b.kind, b.name) is None);
        lemma_fields_line_words(b);
        let defs = crate::isonl::words(fl).map_values(|w: Seq<char>| crate::parser::field_def(w));
        assert(crate::parser::field_names(defs) =~= b.fields);
        assert(b.rows.take(0).map_values(f) =~= Seq::empty());
        let b0 = crate::parser::block_of(b.kind, b.name, defs, Seq::empty(), Seq::empty());
        assert(b0.fields == b.fields);
        let b2 = crate::model::BlockV { rows: b0.rows.push(reread_row(b.fields, r)), ..b0 };
        assert(b2.rows =~= isonl_partial(b, 1).rows);
        assert(b2 == isonl_partial(b, 1));
        assert(acc.push(b2) =~= seq![isonl_partial(b, 1)]);
    } else {
        let p = isonl_partial(b, j);
        assert(acc[0] == p);
        assert(crate::isonl::block_index(acc, b.kind, b.name) == Some(0int)) by {
            assert(0 <= 0 < acc.len() && acc[0].kind == b.kind && acc[0].name == b.name);
        }
        assert(p.fields == b.fields);
        let b2 = crate::model::BlockV { rows: p.rows.push(reread_row(b.fields, r)), ..p };
        assert(b2.rows =~= isonl_partial(b, j + 1).rows);
        assert(b2 == isonl_partial(b, j + 1));
        assert(acc.update(0, b2) =~= seq![isonl_partial(b, j + 1)]);
    }
}

proof fn lemma_isonl_read(ls: Seq<Seq<char>>, b: crate::model::BlockV, j: int, acc: Seq<crate::model::BlockV>)
    requires
        plain_block(b, true),
        pipe_free(b),
        0 <= j <= b.rows.len(),
        ls == crate::isonl::block_isonl_lines(b),
        j == 0 ==> acc.len() == 0,
        j > 0 ==> acc == seq![isonl_partial(b, j)],
    ensures
        crate::isonl::isonl_from(ls, j, acc) == Ok::<Seq<crate::model::BlockV>, crate::parser::ErrorV>(
            if b.rows.len() == 0 { acc } else { seq![isonl_partial(b, b.rows.len() as int)] },
        ),
    decreases b.rows.len() - j,
{
    if j < b.rows.len() {
        let r = b.rows[j];
        let l = ls[j];
        assert(l == crate::isonl::isonl_line(b, r));
        // the line starts with the kind and ends with the row line
        lemma_header_reads_back(b.kind, b.name);
        assert(row_ok(b, r, true));
        lemma_row_line_reads_back(b, r, false);
        let h = b.kind + seq!['.'] + b.name;
        let rl = crate::serializer::row_line(b, r, false);
        assert(l =~= h + seq!['|'] + crate::serializer::fields_line(b) + seq!['|'] + rl);
        assert(l[0] == b.kind[0]);
        assert(rl.len() > 0) by {
            assert(tokenize(rl).len() > 0);
            if rl.len() == 0 {
                assert(trim(rl) == rl);
            }
        }
        assert(l.last() == rl.last());
        crate::text::lemma_trail_ws_bound(rl);
        crate::text::lemma_lead_ws_bound(rl);
        lemma_rl_clean(rl);
        lemma_trim_clean(l);
        lemma_isonl_record(b, j, j + 1, acc);
        lemma_isonl_read(ls, b, j + 1, seq![isonl_partial(b, j + 1)]);
    } else {
        assert(j == b.rows.len());
        if j > 0 {
            assert(acc == seq![isonl_partial(b, b.rows.len() as int)]);
        }
    }
}

proof fn lemma_rl_clean(rl: Seq<char>)
    requires
        rl.len() > 0,
        trim(rl) == rl,
    ensures
        !is_white_space(rl.last()),
{
    crate::text::lemma_lead_ws_bound(rl);
    let t = rl.subrange(crate::text::lead_ws(rl), rl.len() as int);
    crate::text::lemma_trail_ws_bound(t);
    if is_white_space(rl.last()) {
        if crate::text::lead_ws(rl) == rl.len() {
            assert(trim(rl).len() == 0);
        } else {
            assert(t.last() == rl.last());
            assert(crate::text::trail_ws(t) > 0) by {
                if crate::text::trail_ws(t) == 0 {
                    assert(!is_white_space(t[t.len() - 1]));
                }
            }
            assert(trim(rl).len() < rl.len());
        }
    }
}

/// Reading a plain block with rows as ISON text and as ISONL text gives the
/// same fields, declarations and rows; summary rows, which ISONL does not
/// carry, are left aside.
pub proof fn lemma_isonl_matches_ison(b: crate::model::BlockV)
    requires
        plain_block(b, true),
        pipe_free(b),
        b.rows.len() > 0,
    ensures
        crate::parser::parse_spec(crate::serializer::document_text(seq![b], true)) is Ok,
        crate::isonl::parse_isonl_spec(crate::isonl::document_isonl(seq![b])) is Ok,
        ({
            let x = crate::parser::parse_spec(crate::serializer::document_text(seq![b], true))->Ok_0;
            let y = crate::isonl::parse_isonl_spec(crate::isonl::document_isonl(seq![b]))->Ok_0;
            &&& x.len() == 1 && y.len() == 1
            &&& x[0].kind == y[0].kind && x[0].name == y[0].name
            &&& x[0].fields == y[0].fields && x[0].field_info == y[0].field_info
            &&& x[0].rows == y[0].rows
        }),
{
    assert forall|k: int| 0 <= k < 1 implies plain_block(#[trigger] seq![b][k], true) by {
        assert(seq![b][k] == b);
    }
    crate::roundtrip::lemma_round_trip(seq![b], true);
    let ls = crate::isonl::block_isonl_lines(b);
    assert(crate::isonl::isonl_lines(seq![b]) =~= ls) by {
        assert(seq![b].drop_last() =~= Seq::<crate::model::BlockV>::empty());
        assert(crate::isonl::isonl_lines(Seq::<crate::model::BlockV>::empty()) == Seq::<Seq<char>>::empty());
        assert(seq![b].last() == b);
        assert(crate::isonl::isonl_lines(seq![b]) == crate::isonl::isonl_lines(seq![b].drop_last()) + crate::isonl::block_isonl_lines(seq![b].last()));
    }
    assert forall|k: int| 0 <= k < ls.len() implies !(#[trigger] ls[k]).contains('\n') by {
        let r = b.rows[k];
        assert(row_ok(b, r, true));
        lemma_row_line_reads_back(b, r, false);
        lemma_fields_line_reads_back(b);
        lemma_block_lines_clean(b, true);
        let h = b.kind + seq!['.'] + b.name;
        assert(crate::serializer::block_lines(b, true)[0] == h);
        let l = ls[k];
        let fl = crate::serializer::fields_line(b);
        let rl = crate::serializer::row_line(b, r, false);
        assert(l =~= h + seq!['|'] + fl + seq!['|'] + rl);
        if l.contains('\n') {
            let m = choose|m: int| 0 <= m < l.len() && l[m] == '\n';
            if m < h.len() {
                assert(l[m] == h[m]);
            } else if m == h.len() {
            } else if m < h.len() + 1 + fl.len() {
                assert(l[m] == fl[m - h.len() - 1]);
            } else if m == h.len() + 1 + fl.len() {
            } else {
                assert(l[m] == rl[m - h.len() - 2 - fl.len()]);
            }
        }
    }
    lemma_split_join(ls);
    lemma_isonl_read(ls, b, 0, Seq::empty());
    let f = |x: Map<Seq<char>, ValueV>| reread_row(b.fields, x);
    assert(b.rows.take(b.rows.len() as int) =~= b.rows);
}

} // verus!

verus! {

/// A text that does not end in a backslash stops any run of backslashes.
proof fn lemma_run_after(p: Seq<char>, x: Seq<char>)
    requires
        p.len() > 0,
        p.last() != '\\',
    ensures
        backslash_run(p + x) == backslash_run(x),
    decreases x.len(),
{
    if x.len() > 0 {
        lemma_run_after(p, x.drop_last());
        assert((p + x).drop_last() =~= p + x.drop_last());
        assert((p + x).last() == x.last());
    } else {
        assert(p + x =~= p);
    }
}

proof fn lemma_scan_plain(c: Seq<char>, i: int, j: int, q: bool)
    requires
        0 <= i <= j <= c.len(),
        forall|k: int| i <= k < j ==> #[trigger] c[k] != '"' && c[k] != '#',
    ensures
        comment_start(c, i, q) == comment_start(c, j, q),
    decreases j - i,
{
    if i < j {
        lemma_scan_plain(c, i + 1, j, q);
    }
}

proof fn lemma_scan_quoted(c: Seq<char>, i: int, j: int)
    requires
        0 <= i <= j <= c.len(),
        forall|k: int| i <= k < j && #[trigger] c[k] == '"' ==> backslash_run(c.take(k)) % 2 == 1,
    ensures
        comment_start(c, i, true) == comment_start(c, j, true),
    decreases j - i,
{
    if i < j {
        lemma_scan_quoted(c, i + 1, j);
    }
}

/// Scanning for a comment across the text of a plain value, outside
/// quotes, ends outside quotes again.
proof fn lemma_cell_comment(c: Seq<char>, i: int, v: ValueV)
    requires
        0 <= i,
        plain_value(v),
        i + value_text(v).len() <= c.len(),
        c.subrange(i, i + value_text(v).len()) == value_text(v),
        i == 0 || c[i - 1] != '\\',
    ensures
        comment_start(c, i, false) == comment_start(c, i + value_text(v).len(), false),
{
    lemma_value_reads_back(v);
    let t = value_text(v);
    let n = t.len() as int;
    if quoted_value(v) {
        let s = cell_token(v).0;
        let b = escaped(s);
        crate::laws::lemma_escaped_parity(s);
        assert(t == seq!['"'] + b + seq!['"']);
        assert(c[i] == t[0]);
        if i == 0 {
            assert(c.take(i) =~= Seq::<char>::empty());
        } else {
            assert(c.take(i).last() == c[i - 1]);
        }
        assert(comment_start(c, i, false) == comment_start(c, i + 1, true));
        let p = c.take(i + 1);
        assert(p.last() == '"');
        assert forall|k: int| i + 1 <= k < i + 1 + b.len() && #[trigger] c[k] == '"' implies backslash_run(
            c.take(k),
        ) % 2 == 1 by {
            assert(c[k] == c.subrange(i, i + n)[k - i]);
            assert(t[k - i] == b[k - i - 1]);
            assert(c.take(k) =~= p + b.take(k - i - 1)) by {
                assert forall|m: int| 0 <= m < k implies c.take(k)[m] == (p + b.take(k - i - 1))[m] by {
                    if m > i {
                        assert(c[m] == c.subrange(i, i + n)[m - i]);
                        assert(t[m - i] == b[m - i - 1]);
                    }
                }
            }
            lemma_run_after(p, b.take(k - i - 1));
        }
        lemma_scan_quoted(c, i + 1, i + 1 + b.len());
        let e = i + 1 + b.len();
        assert(c[e] == c.subrange(i, i + n)[n - 1]);
        assert(c.take(e) =~= p + b) by {
            assert forall|k: int| 0 <= k < e implies c.take(e)[k] == (p + b)[k] by {
                if k > i {
                    assert(c[k] == c.subrange(i, i + n)[k - i]);
                    assert(t[k - i] == b[k - i - 1]);
                }
            }
        }
        lemma_run_after(p, b);
        assert(comment_start(c, e, true) == comment_start(c, e + 1, false));
    } else {
        assert forall|k: int| i <= k < i + n implies #[trigger] c[k] != '"' && c[k] != '#' by {
            assert(c[k] == c.subrange(i, i + n)[k - i]);
            if c[k] == '#' {
                assert(t[k - i] == '#');
                assert(t.contains('#'));
            }
        }
        lemma_scan_plain(c, i, i + n, false);
    }
}

/// A line of plain values, padded and separated by spaces, holds no
/// comment.
proof fn lemma_line_comment(c: Seq<char>, i: int, vs: Seq<ValueV>, pads: Seq<nat>)
    requires
        0 <= i <= c.len(),
        vs.len() == pads.len(),
        vs.len() > 0,
        forall|k: int| 0 <= k < vs.len() ==> plain_value(#[trigger] vs[k]),
        c.subrange(i, c.len() as int) == crate::serializer::join(padded(vs, pads), seq![' ']),
        i == 0 || c[i - 1] == ' ',
    ensures
        comment_start(c, i, false) == c.len(),
    decreases vs.len(),
{
    let parts = padded(vs, pads);
    let t = value_text(vs[0]);
    let n = t.len() as int;
    let p = pads[0] as int;
    assert(plain_value(vs[0]));
    if vs.len() == 1 {
        assert(crate::serializer::join(parts, seq![' ']) == parts[0]);
        assert(c.subrange(i, c.len() as int) == t + spaces(pads[0]));
        assert(c.subrange(i, i + n) =~= t) by {
            assert forall|k: int| 0 <= k < n implies c[i + k] == t[k] by {
                assert(c.subrange(i, c.len() as int)[k] == (t + spaces(pads[0]))[k]);
            }
        }
        lemma_cell_comment(c, i, vs[0]);
        assert forall|k: int| i + n <= k < c.len() implies #[trigger] c[k] != '"' && c[k] != '#' by {
            assert(c.subrange(i, c.len() as int)[k - i] == (t + spaces(pads[0]))[k - i]);
        }
        lemma_scan_plain(c, i + n, c.len() as int, false);
    } else {
        lemma_join_cons(parts, seq![' ']);
        let rest = crate::serializer::join(parts.drop_first(), seq![' ']);
        let whole = t + spaces(pads[0]) + seq![' '] + rest;
        assert(c.subrange(i, c.len() as int) == whole);
        let j = i + n + p + 1;
        assert(c.subrange(i, i + n) =~= t) by {
            assert forall|k: int| 0 <= k < n implies c[i + k] == t[k] by {
                assert(c.subrange(i, c.len() as int)[k] == whole[k]);
            }
        }
        lemma_cell_comment(c, i, vs[0]);
        assert forall|k: int| i + n <= k < j implies #[trigger] c[k] != '"' && c[k] != '#' && c[k] == ' ' by {
            assert(c.subrange(i, c.len() as int)[k - i] == whole[k - i]);
        }
        lemma_scan_plain(c, i + n, j, false);
        assert(c[j - 1] == ' ');
        assert(padded(vs.drop_first(), pads.drop_first()) =~= parts.drop_first());
        assert(c.subrange(j, c.len() as int) =~= rest) by {
            assert forall|k: int| 0 <= k < rest.len() implies c[j + k] == rest[k] by {
                assert(c.subrange(i, c.len() as int)[j - i + k] == whole[j - i + k]);
            }
        }
        assert forall|k: int| 0 <= k < vs.drop_first().len() implies plain_value(#[trigger] vs.drop_first()[k]) by {
            assert(vs.drop_first()[k] == vs[k + 1]);
        }
        lemma_line_comment(c, j, vs.drop_first(), pads.drop_first());
    }
}

} // verus!
