//! Properties that relate the parser, the serializer and the document
//! model, proved over their specifications.
use vstd::prelude::*;
use crate::model::{BlockV, ValueV, first_named};
use crate::parser::{row_from, row_of, min};
use crate::serializer::{cell_text, escape, escaped, needs_quotes, string_text};
use crate::tokenizer::{tokenize, tokens_from, comment_start, quoted_from, unescape, backslash_run};
use crate::classify::classify;

verus! {

/// Looking a block up by name finds the first block with that name: when
/// block `i` is named `name`, the lookup yields a block named `name` at a
/// position no later than `i`, and no earlier block has that name.
pub proof fn lemma_lookup_finds_first(d: Seq<BlockV>, name: Seq<char>, i: int)
    requires
        0 <= i < d.len(),
        d[i].name == name,
    ensures
        first_named(d, name) is Some,
        first_named(d, name)->0 <= i,
        d[first_named(d, name)->0].name == name,
        forall|k: int| 0 <= k < first_named(d, name)->0 ==> (#[trigger] d[k]).name != name,
{
    let w = choose|j: int| 0 <= j < d.len() && (#[trigger] d[j]).name == name && forall|k: int| 0 <= k < j ==> (#[trigger] d[k]).name != name;
    assert(exists|j: int| 0 <= j < d.len() && (#[trigger] d[j]).name == name && forall|k: int| 0 <= k < j ==> (#[trigger] d[k]).name != name) by {
        lemma_least_named(d, name, i);
    }
    if w > i {
        assert(d[i].name != name);
    }
}

proof fn lemma_least_named(d: Seq<BlockV>, name: Seq<char>, i: int)
    requires
        0 <= i < d.len(),
        d[i].name == name,
    ensures
        exists|j: int| 0 <= j < d.len() && (#[trigger] d[j]).name == name && forall|k: int| 0 <= k < j ==> (#[trigger] d[k]).name != name,
    decreases i,
{
    if exists|k: int| 0 <= k < i && (#[trigger] d[k]).name == name {
        let k = choose|k: int| 0 <= k < i && (#[trigger] d[k]).name == name;
        lemma_least_named(d, name, k);
    } else {
        assert(0 <= i < d.len() && d[i].name == name && forall|k: int| 0 <= k < i ==> (#[trigger] d[k]).name != name);
    }
}

proof fn lemma_row_from_keys(fields: Seq<Seq<char>>, toks: Seq<(Seq<char>, bool)>, n: int, f: Seq<char>)
    requires
        0 <= n <= fields.len(),
        n <= toks.len(),
        row_from(fields, toks, n) is Ok,
    ensures
        row_from(fields, toks, n)->Ok_0.contains_key(f) <==> exists|k: int| 0 <= k < n && fields[k] == f,
    decreases n,
{
    if n > 0 {
        lemma_row_from_keys(fields, toks, n - 1, f);
        if fields[n - 1] != f && exists|k: int| 0 <= k < n && fields[k] == f {
            let k = choose|k: int| 0 <= k < n && fields[k] == f;
            assert(k < n - 1);
        }
    }
}

/// A data line with fewer tokens than declared fields holds a value for
/// each field that has a token, leaves the trailing field `i` out of the row
/// (unless a field with a token has the same name), and writing that row
/// renders `null` for it.
pub proof fn lemma_missing_fields_absent_then_null(
    fields: Seq<Seq<char>>,
    line: Seq<char>,
    i: int,
)
    requires
        tokenize(line).len() <= i < fields.len(),
        row_of(fields, tokenize(line)) is Ok,
        forall|k: int| 0 <= k < tokenize(line).len() ==> fields[k] != fields[i],
    ensures
        forall|k: int| 0 <= k < tokenize(line).len() ==> row_of(fields, tokenize(line))->Ok_0.contains_key(
            #[trigger] fields[k],
        ),
        !row_of(fields, tokenize(line))->Ok_0.contains_key(fields[i]),
        cell_text(row_of(fields, tokenize(line))->Ok_0, fields[i]) == "null"@,
{
    let toks = tokenize(line);
    assert(min(fields.len() as int, toks.len() as int) == toks.len());
    lemma_row_from_keys(fields, toks, toks.len() as int, fields[i]);
    assert forall|k: int| 0 <= k < toks.len() implies row_of(fields, toks)->Ok_0.contains_key(#[trigger] fields[k]) by {
        lemma_row_from_keys(fields, toks, toks.len() as int, fields[k]);
    }
}

proof fn lemma_escaped_cons(s: Seq<char>)
    requires
        s.len() > 0,
    ensures
        escaped(s) == escape(s[0]) + escaped(s.drop_first()),
    decreases s.len(),
{
    if s.len() == 1 {
        assert(s.drop_last() =~= Seq::<char>::empty());
        assert(s.drop_first() =~= Seq::<char>::empty());
        assert(escape(s[0]) + Seq::<char>::empty() =~= escape(s[0]));
    } else {
        lemma_escaped_cons(s.drop_last());
        assert(s.drop_last().drop_first() =~= s.drop_first().drop_last());
        assert(s.drop_first().last() == s.last());
        assert(escaped(s.drop_first()) == escaped(s.drop_first().drop_last()) + escape(s.last()));
        assert(escape(s[0]) + escaped(s.drop_first()) =~= escape(s[0]) + escaped(
            s.drop_last().drop_first(),
        ) + escape(s.last()));
    }
}

/// An escaped text ends in an even run of backslashes, and every `"` in it
/// follows an odd run: quoting stays open across it.
pub proof fn lemma_escaped_parity(s: Seq<char>)
    ensures
        backslash_run(escaped(s)) % 2 == 0,
        forall|q: int| 0 <= q < escaped(s).len() && #[trigger] escaped(s)[q] == '"' ==> backslash_run(
            escaped(s).take(q),
        ) % 2 == 1,
    decreases s.len(),
{
    if s.len() > 0 {
        lemma_escaped_parity(s.drop_last());
        let a = escaped(s.drop_last());
        let e = escape(s.last());
        let t = escaped(s);
        assert(t == a + e);
        let x = s.last();
        if x == '\\' || x == '"' || x == '\n' || x == '\t' || x == '\r' {
            assert(e.len() == 2 && e[0] == '\\');
            let p = a.push('\\');
            assert(t =~= p.push(e[1]));
            assert(p.drop_last() =~= a);
            assert(t.drop_last() =~= p);
            assert(backslash_run(p) == 1 + backslash_run(a));
            if x == '\\' {
                assert(backslash_run(t) == 1 + backslash_run(p));
            }
        } else {
            assert(e =~= seq![x]);
            assert(t =~= a.push(x));
            assert(t.drop_last() =~= a);
        }
        assert forall|q: int| 0 <= q < t.len() && #[trigger] t[q] == '"' implies backslash_run(
            t.take(q),
        ) % 2 == 1 by {
            if q < a.len() {
                assert(t[q] == a[q]);
                assert(t.take(q) =~= a.take(q));
            } else {
                assert(t[q] == e[q - a.len()]);
                assert(q == a.len() + 1);
                assert(t.take(q) =~= a.push('\\'));
                assert(a.push('\\').drop_last() =~= a);
            }
        }
    }
}

/// A leading `"` does not change the run of backslashes that ends a text.
proof fn lemma_run_after_quote(x: Seq<char>)
    ensures
        backslash_run(seq!['"'] + x) == backslash_run(x),
    decreases x.len(),
{
    if x.len() > 0 {
        lemma_run_after_quote(x.drop_last());
        assert((seq!['"'] + x).drop_last() =~= seq!['"'] + x.drop_last());
        assert((seq!['"'] + x).last() == x.last());
    } else {
        assert(seq!['"'] + x =~= seq!['"']);
        assert(seq!['"'].drop_last() =~= Seq::<char>::empty());
    }
}

/// Reading the body of a quoted token made of `escaped(s)` and a closing
/// quote gives back `s`.
pub proof fn lemma_quoted_escaped(c: Seq<char>, i: int, s: Seq<char>)
    requires
        0 <= i,
        i + escaped(s).len() < c.len(),
        c.subrange(i, i + escaped(s).len()) == escaped(s),
        c[i + escaped(s).len()] == '"',
    ensures
        quoted_from(c, i) == (s, i + escaped(s).len() + 1),
    decreases s.len(),
{
    if s.len() == 0 {
        assert(c[i] == '"');
    } else {
        lemma_escaped_cons(s);
        let e = escape(s[0]);
        let rest = s.drop_first();
        assert(escaped(s) == e + escaped(rest));
        assert(c[i] == escaped(s)[0]);
        assert(c.subrange(i + e.len(), i + e.len() + escaped(rest).len()) =~= escaped(rest)) by {
            assert forall|k: int| 0 <= k < escaped(rest).len() implies c[i + e.len() + k]
                == escaped(rest)[k] by {
                assert(c.subrange(i, i + escaped(s).len())[e.len() + k] == escaped(s)[e.len() + k]);
            }
        }
        lemma_quoted_escaped(c, i + e.len(), rest);
        if e.len() == 2 {
            assert(c[i + 1] == escaped(s)[1]);
            assert(unescape(c[i + 1]) == s[0]);
            assert(seq![s[0]] + rest =~= s);
        } else {
            assert(seq![s[0]] + rest =~= s);
        }
    }
}

proof fn lemma_comment_in_quotes(t: Seq<char>, j: int)
    requires
        2 <= t.len(),
        1 <= j <= t.len(),
        t.last() == '"',
        forall|q: int| 1 <= q < t.len() - 1 && #[trigger] t[q] == '"' ==> backslash_run(t.take(q))
            % 2 == 1,
    ensures
        comment_start(t, j, true) == t.len(),
    decreases t.len() - j,
{
    if j < t.len() - 1 {
        lemma_comment_in_quotes(t, j + 1);
    } else if j == t.len() - 1 {
        assert(comment_start(t, j + 1, false) == t.len());
        assert(comment_start(t, j + 1, true) == t.len());
    }
}

/// A string that must be quoted (a keyword, one with a blank, a line break,
/// a quote or a backslash, one starting with `:`, or one that reads as a
/// number) is written between quotes, and reading that text back as a line
/// gives one quoted token, which classifies as the same string.
pub proof fn lemma_quoted_string_round_trip(s: Seq<char>)
    requires
        needs_quotes(s),
    ensures
        string_text(s)[0] == '"',
        string_text(s).last() == '"',
        tokenize(string_text(s)) == seq![(s, true)],
        classify(tokenize(string_text(s))[0]) == Some(ValueV::Str(s)),
{
    let t = string_text(s);
    let b = escaped(s);
    assert(t == seq!['"'] + b + seq!['"']);
    lemma_escaped_parity(s);
    assert forall|q: int| 1 <= q < t.len() - 1 && #[trigger] t[q] == '"' implies backslash_run(t.take(q))
        % 2 == 1 by {
        assert(t[q] == b[q - 1]);
        assert(t.take(q) =~= seq!['"'] + b.take(q - 1));
        lemma_run_after_quote(b.take(q - 1));
    }
    lemma_comment_in_quotes(t, 1);
    assert(t.take(0) =~= Seq::<char>::empty());
    assert(comment_start(t, 0, false) == comment_start(t, 1, true));
    assert(t.take(t.len() as int) =~= t);
    assert(t.subrange(1, 1 + b.len() as int) =~= b);
    lemma_quoted_escaped(t, 1, s);
    assert(tokens_from(t, t.len() as int) == Seq::<(Seq<char>, bool)>::empty());
    assert(tokens_from(t, 0) =~= seq![(s, true)]);
}

} // verus!
