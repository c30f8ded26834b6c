//! Classifying one raw token as a typed value.
use vstd::prelude::*;
use crate::text::{split, string_of, split_chars};
use crate::model::{Reference, RefV, Value, ValueV, chars_eq_str};
use crate::tokenizer::Token;

verus! {

pub open spec fn is_digit(c: char) -> bool {
    '0' <= c && c <= '9'
}

/// The number that a run of decimal digits denotes.
pub open spec fn digits_value(d: Seq<char>) -> nat
    decreases d.len(),
{
    if d.len() == 0 {
        0
    } else {
        (digits_value(d.drop_last()) * 10 + ((d.last() as int) - ('0' as int))) as nat
    }
}

pub open spec fn all_digits(d: Seq<char>) -> bool {
    d.len() > 0 && forall|i: int| 0 <= i < d.len() ==> is_digit(#[trigger] d[i])
}

pub open spec fn has_sign(t: Seq<char>) -> bool {
    t.len() > 0 && (t[0] == '+' || t[0] == '-')
}

/// The integer that `t` denotes under the base-10 grammar: an optional
/// leading `-`, then one or more digits.
pub open spec fn int_literal(t: Seq<char>) -> Option<int> {
    if t.len() > 0 && t[0] == '-' {
        if all_digits(t.drop_first()) {
            Some(-(digits_value(t.drop_first()) as int))
        } else {
            None
        }
    } else if all_digits(t) {
        Some(digits_value(t) as int)
    } else {
        None
    }
}

/// Whether `t` is an integer literal whose value fits in 64 signed bits.
pub open spec fn is_i64_literal(t: Seq<char>) -> bool {
    match int_literal(t) {
        Some(v) => i64::MIN <= v <= i64::MAX,
        None => false,
    }
}

/// `c` equals the lowercase ASCII letter or character `l`, ignoring case.
pub open spec fn ci_char(c: char, l: char) -> bool {
    c == l || ('a' <= l && l <= 'z' && (c as u32) + 32 == (l as u32))
}

pub open spec fn ci_eq(t: Seq<char>, l: Seq<char>) -> bool {
    t.len() == l.len() && forall|i: int| 0 <= i < t.len() ==> ci_char(#[trigger] t[i], l[i])
}

/// Digits with at most one `.` among them, and at least one digit.
pub open spec fn is_mantissa(m: Seq<char>) -> bool {
    &&& forall|i: int| 0 <= i < m.len() ==> is_digit(#[trigger] m[i]) || m[i] == '.'
    &&& forall|i: int, j: int| 0 <= i < m.len() && 0 <= j < m.len() && #[trigger] m[i] == '.'
        && #[trigger] m[j] == '.' ==> i == j
    &&& exists|i: int| 0 <= i < m.len() && is_digit(#[trigger] m[i])
}

/// An optional sign, then one or more digits.
pub open spec fn is_exponent(x: Seq<char>) -> bool {
    if has_sign(x) {
        all_digits(x.drop_first())
    } else {
        all_digits(x)
    }
}

pub open spec fn is_exp_mark(c: char) -> bool {
    c == 'e' || c == 'E'
}

/// Position of the first `e` or `E` in `u`, or its length.
pub open spec fn exp_pos(u: Seq<char>) -> int
    decreases u.len(),
{
    if u.len() == 0 {
        0
    } else if is_exp_mark(u[0]) {
        0
    } else {
        1 + exp_pos(u.drop_first())
    }
}

/// A mantissa, then optionally `e` or `E` and an exponent.
pub open spec fn is_decimal(u: Seq<char>) -> bool {
    let e = exp_pos(u);
    is_mantissa(u.take(e)) && (e == u.len() || is_exponent(u.subrange(e + 1, u.len() as int)))
}

/// Whether `t` is a float literal under the grammar of `f64::from_str`:
/// an optional sign, then `inf`, `infinity`, `nan` (in any case) or a
/// decimal number with an optional exponent.
pub open spec fn is_float_literal(t: Seq<char>) -> bool {
    let u = if has_sign(t) {
        t.drop_first()
    } else {
        t
    };
    ci_eq(u, seq!['i', 'n', 'f']) || ci_eq(u, seq!['i', 'n', 'f', 'i', 'n', 'i', 't', 'y'])
        || ci_eq(u, seq!['n', 'a', 'n']) || is_decimal(u)
}

/// The reference that `t` (which starts with `:`) denotes: `:id` or
/// `:type:id`; `None` for any other number of parts.
pub open spec fn reference_of(t: Seq<char>) -> Option<RefV> {
    let parts = split(t.drop_first(), ':');
    if parts.len() == 1 {
        Some(RefV { id: parts[0], ref_type: None })
    } else if parts.len() == 2 {
        Some(RefV { id: parts[1], ref_type: Some(parts[0]) })
    } else {
        None
    }
}

/// The value of a token; `None` for a malformed reference. A quoted token is
/// always a string; otherwise the first matching rule wins: null, boolean,
/// reference, integer, float, string.
pub open spec fn classify(tok: (Seq<char>, bool)) -> Option<ValueV> {
    let t = tok.0;
    if tok.1 {
        Some(ValueV::Str(t))
    } else if t == "null"@ || t == "~"@ {
        Some(ValueV::Null)
    } else if t == "true"@ {
        Some(ValueV::Bool(true))
    } else if t == "false"@ {
        Some(ValueV::Bool(false))
    } else if t.len() > 0 && t[0] == ':' {
        match reference_of(t) {
            Some(r) => Some(ValueV::Ref(r)),
            None => None,
        }
    } else if is_i64_literal(t) {
        Some(ValueV::Int(int_literal(t)->0))
    } else if is_float_literal(t) {
        Some(ValueV::Float(t))
    } else {
        Some(ValueV::Str(t))
    }
}

proof fn lemma_digits_prefix(d: Seq<char>, k: int)
    requires
        0 <= k <= d.len(),
        forall|i: int| 0 <= i < d.len() ==> is_digit(#[trigger] d[i]),
    ensures
        digits_value(d.take(k)) <= digits_value(d),
    decreases d.len() - k,
{
    if k < d.len() {
        lemma_digits_prefix(d, k + 1);
        assert(d.take(k + 1).drop_last() =~= d.take(k));
        assert(d.take(k + 1).last() == d[k]);
        assert(is_digit(d[k]));
        assert(digits_value(d.take(k + 1)) == digits_value(d.take(k)) * 10 + ((d[k] as int) - (
        '0' as int)));
    } else {
        assert(d.take(k) =~= d);
    }
}

/// The value of `t[from..]` read as decimal digits, when every character
/// is a digit, there is at least one, and the value is at most `limit`.
fn read_digits(t: &Vec<char>, from: usize, limit: u64) -> (r: Option<u64>)
    requires
        from <= t.len(),
        limit >= 9,
    ensures
        match r {
            Some(v) => all_digits(t@.subrange(from as int, t.len() as int)) && v == digits_value(
                t@.subrange(from as int, t.len() as int),
            ) && v <= limit,
            None => !all_digits(t@.subrange(from as int, t.len() as int)) || digits_value(
                t@.subrange(from as int, t.len() as int),
            ) > limit,
        },
{
    let ghost d = t@.subrange(from as int, t.len() as int);
    if from == t.len() {
        return None;
    }
    let mut i: usize = from;
    let mut acc: u64 = 0;
    while i < t.len()
        invariant
            from <= i <= t.len(),
            d == t@.subrange(from as int, t.len() as int),
            forall|k: int| 0 <= k < i - from ==> is_digit(#[trigger] d[k]),
            acc == digits_value(d.take(i - from)),
            acc <= limit,
            limit >= 9,
        decreases t.len() - i,
    {
        let c = t[i];
        proof {
            assert(d[i - from] == c);
        }
        if !('0' <= c && c <= '9') {
            return None;
        }
        let dv: u64 = (c as u64) - ('0' as u64);
        assert(dv <= 9);
        proof {
            assert(d.take(i - from + 1).drop_last() =~= d.take(i - from));
            assert(d.take(i - from + 1).last() == c);
        }
        if acc > (limit - dv) / 10 {
            proof {
                assert(acc * 10 + dv > limit) by (nonlinear_arith)
                    requires
                        acc > (limit - dv) / 10,
                        dv <= limit,
                ;
                if all_digits(d) {
                    lemma_digits_prefix(d, i - from + 1);
                }
            }
            return None;
        }
        assert(acc * 10 + dv <= limit) by (nonlinear_arith)
            requires
                acc <= (limit - dv) / 10,
                dv <= limit,
        ;
        acc = acc * 10 + dv;
        i += 1;
    }
    proof {
        assert(d.take(i - from) =~= d);
    }
    Some(acc)
}

/// Reads `t` as a 64-bit signed integer literal.
pub fn parse_i64(t: &Vec<char>) -> (r: Option<i64>)
    ensures
        match r {
            Some(v) => is_i64_literal(t@) && int_literal(t@) == Some(v as int),
            None => !is_i64_literal(t@),
        },
{
    if t.len() > 0 && t[0] == '-' {
        proof {
            assert(t@.subrange(1, t.len() as int) =~= t@.drop_first());
        }
        match read_digits(t, 1, 9223372036854775808u64) {
            Some(v) => {
                if v == 9223372036854775808u64 {
                    Some(i64::MIN)
                } else {
                    Some(-(v as i64))
                }
            },
            None => None,
        }
    } else {
        proof {
            assert(t@.subrange(0, t.len() as int) =~= t@);
        }
        match read_digits(t, 0, 9223372036854775807u64) {
            Some(v) => Some(v as i64),
            None => None,
        }
    }
}

} // verus!

verus! {

proof fn lemma_exp_pos(u: Seq<char>, i: int)
    requires
        0 <= i <= u.len(),
        forall|k: int| 0 <= k < i ==> !is_exp_mark(#[trigger] u[k]),
        i < u.len() ==> is_exp_mark(u[i]),
    ensures
        exp_pos(u) == i,
    decreases u.len(),
{
    if u.len() > 0 && i > 0 {
        assert(!is_exp_mark(u[0]));
        assert forall|k: int| 0 <= k < i - 1 implies !is_exp_mark(#[trigger] u.drop_first()[k]) by {
            assert(u.drop_first()[k] == u[k + 1]);
        }
        lemma_exp_pos(u.drop_first(), i - 1);
    }
}

fn ci_char_exec(c: char, l: char) -> (r: bool)
    ensures
        r == ci_char(c, l),
{
    c == l || ('a' <= l && l <= 'z' && (c as u32) + 32 == (l as u32))
}

/// Whether `t[lo..hi]` equals `l` ignoring ASCII case.
fn ci_eq_range(t: &Vec<char>, lo: usize, hi: usize, l: &Vec<char>) -> (r: bool)
    requires
        lo <= hi <= t.len(),
    ensures
        r == ci_eq(t@.subrange(lo as int, hi as int), l@),
{
    let ghost u = t@.subrange(lo as int, hi as int);
    if hi - lo != l.len() {
        return false;
    }
    let mut i: usize = 0;
    while i < l.len()
        invariant
            i <= l.len() == hi - lo,
            lo <= hi <= t.len(),
            u == t@.subrange(lo as int, hi as int),
            forall|k: int| 0 <= k < i ==> ci_char(#[trigger] u[k], l@[k]),
        decreases l.len() - i,
    {
        proof {
            assert(u[i as int] == t@[lo + i]);
        }
        if !ci_char_exec(t[lo + i], l[i]) {
            return false;
        }
        i += 1;
    }
    true
}

/// Whether `t[lo..hi]` is a mantissa.
fn mantissa_range(t: &Vec<char>, lo: usize, hi: usize) -> (r: bool)
    requires
        lo <= hi <= t.len(),
    ensures
        r == is_mantissa(t@.subrange(lo as int, hi as int)),
{
    let ghost m = t@.subrange(lo as int, hi as int);
    let mut i: usize = lo;
    let mut dot: Option<usize> = None;
    let mut digit = false;
    while i < hi
        invariant
            lo <= i <= hi <= t.len(),
            m == t@.subrange(lo as int, hi as int),
            forall|k: int| 0 <= k < i - lo ==> is_digit(#[trigger] m[k]) || m[k] == '.',
            match dot {
                Some(p) => p < i - lo && m[p as int] == '.' && forall|k: int| 0 <= k < i - lo && #[trigger] m[k] == '.' ==> k == p,
                None => forall|k: int| 0 <= k < i - lo ==> #[trigger] m[k] != '.',
            },
            digit == exists|k: int| 0 <= k < i - lo && is_digit(#[trigger] m[k]),
        decreases hi - i,
    {
        let c = t[i];
        proof {
            assert(m[i - lo] == c);
        }
        if '0' <= c && c <= '9' {
            digit = true;
        } else if c == '.' {
            match dot {
                Some(p) => {
                    proof {
                        assert(m[p as int] == '.' && m[i - lo] == '.');
                    }
                    return false;
                },
                None => {
                    dot = Some(i - lo);
                },
            }
        } else {
            return false;
        }
        i += 1;
    }
    proof {
        if !digit {
            assert(!exists|k: int| 0 <= k < m.len() && is_digit(#[trigger] m[k]));
        }
    }
    digit
}

/// Whether `t[lo..hi]` consists of one or more digits.
fn digits_range(t: &Vec<char>, lo: usize, hi: usize) -> (r: bool)
    requires
        lo <= hi <= t.len(),
    ensures
        r == all_digits(t@.subrange(lo as int, hi as int)),
{
    let ghost d = t@.subrange(lo as int, hi as int);
    if lo == hi {
        return false;
    }
    let mut i: usize = lo;
    while i < hi
        invariant
            lo <= i <= hi <= t.len(),
            d == t@.subrange(lo as int, hi as int),
            forall|k: int| 0 <= k < i - lo ==> is_digit(#[trigger] d[k]),
        decreases hi - i,
    {
        proof {
            assert(d[i - lo] == t@[i as int]);
        }
        if !('0' <= t[i] && t[i] <= '9') {
            return false;
        }
        i += 1;
    }
    true
}

/// Whether `t[lo..hi]` is a decimal number with an optional exponent.
fn decimal_range(t: &Vec<char>, lo: usize, hi: usize) -> (r: bool)
    requires
        lo <= hi <= t.len(),
    ensures
        r == is_decimal(t@.subrange(lo as int, hi as int)),
{
    let ghost u = t@.subrange(lo as int, hi as int);
    let mut e: usize = lo;
    while e < hi && !(t[e] == 'e' || t[e] == 'E')
        invariant
            lo <= e <= hi <= t.len(),
            u == t@.subrange(lo as int, hi as int),
            forall|k: int| 0 <= k < e - lo ==> !is_exp_mark(#[trigger] u[k]),
        decreases hi - e,
    {
        proof {
            assert(u[e - lo] == t@[e as int]);
        }
        e += 1;
    }
    proof {
        if e < hi {
            assert(u[e - lo] == t@[e as int]);
        }
        lemma_exp_pos(u, e - lo);
        assert(u.take(e - lo) =~= t@.subrange(lo as int, e as int));
    }
    if !mantissa_range(t, lo, e) {
        return false;
    }
    if e == hi {
        return true;
    }
    let x = e + 1;
    proof {
        assert(u.subrange(e - lo + 1, u.len() as int) =~= t@.subrange(x as int, hi as int));
    }
    if x < hi && (t[x] == '+' || t[x] == '-') {
        proof {
            assert(t@.subrange(x as int, hi as int).drop_first() =~= t@.subrange(x + 1, hi as int));
        }
        digits_range(t, x + 1, hi)
    } else {
        digits_range(t, x, hi)
    }
}

/// Whether `t` is a float literal (see `is_float_literal`).
pub fn is_float_text(t: &Vec<char>) -> (r: bool)
    ensures
        r == is_float_literal(t@),
{
    let lo: usize = if t.len() > 0 && (t[0] == '+' || t[0] == '-') {
        1
    } else {
        0
    };
    proof {
        if lo == 1 {
            assert(t@.subrange(1, t.len() as int) =~= t@.drop_first());
        } else {
            assert(t@.subrange(0, t.len() as int) =~= t@);
        }
    }
    let inf = vec!['i', 'n', 'f'];
    let infinity = vec!['i', 'n', 'f', 'i', 'n', 'i', 't', 'y'];
    let nan = vec!['n', 'a', 'n'];
    ci_eq_range(t, lo, t.len(), &inf) || ci_eq_range(t, lo, t.len(), &infinity) || ci_eq_range(
        t,
        lo,
        t.len(),
        &nan,
    ) || decimal_range(t, lo, t.len())
}

/// Reads a token that starts with `:` as a reference.
pub fn parse_reference(t: &Vec<char>) -> (r: Option<Reference>)
    requires
        t.len() > 0,
    ensures
        match r {
            Some(x) => reference_of(t@) == Some(x@),
            None => reference_of(t@) is None,
        },
{
    let mut content: Vec<char> = Vec::new();
    let mut i: usize = 1;
    while i < t.len()
        invariant
            1 <= i <= t.len(),
            content@ == t@.subrange(1, i as int),
        decreases t.len() - i,
    {
        content.push(t[i]);
        i += 1;
        proof {
            assert(content@ =~= t@.subrange(1, i as int));
        }
    }
    proof {
        assert(content@ =~= t@.drop_first());
    }
    let parts = split_chars(&content, ':');
    proof {
        assert(parts@.map_values(|l: Vec<char>| l@)[0] == parts@[0]@);
    }
    if parts.len() == 1 {
        let id = string_of(&parts[0], 0, parts[0].len());
        proof {
            assert(parts[0]@.subrange(0, parts[0]@.len() as int) =~= parts[0]@);
        }
        Some(Reference { id, ref_type: None })
    } else if parts.len() == 2 {
        let ty = string_of(&parts[0], 0, parts[0].len());
        let id = string_of(&parts[1], 0, parts[1].len());
        proof {
            assert(parts@.map_values(|l: Vec<char>| l@)[1] == parts@[1]@);
            assert(parts[0]@.subrange(0, parts[0]@.len() as int) =~= parts[0]@);
            assert(parts[1]@.subrange(0, parts[1]@.len() as int) =~= parts[1]@);
        }
        Some(Reference { id, ref_type: Some(ty) })
    } else {
        None
    }
}

/// The value of a token (see `classify`); `None` for a malformed
/// reference.
pub fn parse_value(tok: &Token) -> (r: Option<Value>)
    ensures
        match r {
            Some(v) => classify(tok@) == Some(v@),
            None => classify(tok@) is None,
        },
{
    let t = crate::text::chars_of(tok.text.as_str());
    proof {
        assert(t@.subrange(0, t.len() as int) =~= t@);
    }
    if tok.quoted {
        return Some(Value::String(string_of(&t, 0, t.len())));
    }
    if chars_eq_str(&t, "null") || chars_eq_str(&t, "~") {
        Some(Value::Null)
    } else if chars_eq_str(&t, "true") {
        Some(Value::Bool(true))
    } else if chars_eq_str(&t, "false") {
        Some(Value::Bool(false))
    } else if t.len() > 0 && t[0] == ':' {
        match parse_reference(&t) {
            Some(x) => Some(Value::Reference(x)),
            None => None,
        }
    } else {
        match parse_i64(&t) {
            Some(i) => Some(Value::Int(i)),
            None => {
                if is_float_text(&t) {
                    Some(Value::Float(string_of(&t, 0, t.len())))
                } else {
                    Some(Value::String(string_of(&t, 0, t.len())))
                }
            },
        }
    }
}

} // verus!
