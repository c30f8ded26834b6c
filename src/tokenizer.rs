//! Splitting one line into tokens: quoted and unquoted fields, with
//! trailing comments removed.
use vstd::prelude::*;
use crate::text::{string_of, push_char};

verus! {

/// One raw token of a line. `quoted` tells whether it was written between
/// double quotes; such a token always reads as a string.
pub struct Token {
    pub text: String,
    pub quoted: bool,
}

impl View for Token {
    type V = (Seq<char>, bool);

    open spec fn view(&self) -> (Seq<char>, bool) {
        (self.text@, self.quoted)
    }
}

pub open spec fn tokens_view(v: Seq<Token>) -> Seq<(Seq<char>, bool)> {
    v.map_values(|t: Token| t@)
}

pub open spec fn is_blank(c: char) -> bool {
    c == ' ' || c == '\t'
}

/// Number of backslashes that end `p`.
pub open spec fn backslash_run(p: Seq<char>) -> nat
    decreases p.len(),
{
    if p.len() > 0 && p.last() == '\\' {
        1 + backslash_run(p.drop_last())
    } else {
        0
    }
}

/// Whether the `"` at position `i` is unescaped: an even number of
/// backslashes stands right before it.
pub open spec fn unescaped_quote(c: Seq<char>, i: int) -> bool {
    c[i] == '"' && backslash_run(c.take(i)) % 2 == 0
}

/// Position of the first `#` that is not inside quotes, or the length of
/// `c`. Each unescaped `"` opens or closes quoting.
pub open spec fn comment_start(c: Seq<char>, i: int, in_quote: bool) -> int
    decreases c.len() - i,
{
    if i < 0 || i >= c.len() {
        c.len() as int
    } else if unescaped_quote(c, i) {
        comment_start(c, i + 1, !in_quote)
    } else if c[i] == '#' && !in_quote {
        i
    } else {
        comment_start(c, i + 1, in_quote)
    }
}

/// What the escape `\e` stands for inside quotes.
pub open spec fn unescape(e: char) -> char {
    if e == 'n' {
        '\n'
    } else if e == 't' {
        '\t'
    } else if e == 'r' {
        '\r'
    } else {
        e
    }
}

/// The text of a quoted token whose body starts at `i`, and the position
/// just after its closing quote (or the end of `c` when it is unterminated).
pub open spec fn quoted_from(c: Seq<char>, i: int) -> (Seq<char>, int)
    decreases c.len() - i,
{
    if i < 0 || i >= c.len() {
        (Seq::empty(), c.len() as int)
    } else if c[i] == '\\' {
        if i + 1 < c.len() {
            let r = quoted_from(c, i + 2);
            (seq![unescape(c[i + 1])] + r.0, r.1)
        } else {
            (seq!['\\'], i + 1)
        }
    } else if c[i] == '"' {
        (Seq::empty(), i + 1)
    } else {
        let r = quoted_from(c, i + 1);
        (seq![c[i]] + r.0, r.1)
    }
}

/// End of the unquoted token that starts at `i`: the next blank or the end.
pub open spec fn unquoted_end(c: Seq<char>, i: int) -> int
    decreases c.len() - i,
{
    if i < 0 || i >= c.len() || is_blank(c[i]) {
        i
    } else {
        unquoted_end(c, i + 1)
    }
}

pub proof fn lemma_quoted_bounds(c: Seq<char>, i: int)
    requires
        0 <= i,
    ensures
        i <= quoted_from(c, i).1 <= c.len() || (i > c.len() && quoted_from(c, i).1 == c.len()),
        i <= c.len() ==> i <= quoted_from(c, i).1 <= c.len(),
    decreases c.len() - i,
{
    if i < c.len() {
        if c[i] == '\\' {
            if i + 1 < c.len() {
                lemma_quoted_bounds(c, i + 2);
            }
        } else if c[i] != '"' {
            lemma_quoted_bounds(c, i + 1);
        }
    }
}

pub proof fn lemma_unquoted_bounds(c: Seq<char>, i: int)
    requires
        0 <= i <= c.len(),
    ensures
        i <= unquoted_end(c, i) <= c.len(),
        forall|k: int| i <= k < unquoted_end(c, i) ==> !is_blank(#[trigger] c[k]),
        unquoted_end(c, i) < c.len() ==> is_blank(c[unquoted_end(c, i)]),
    decreases c.len() - i,
{
    if i < c.len() && !is_blank(c[i]) {
        lemma_unquoted_bounds(c, i + 1);
    }
}

/// The tokens of `c` from position `i` on.
pub open spec fn tokens_from(c: Seq<char>, i: int) -> Seq<(Seq<char>, bool)>
    decreases c.len() - i,
{
    if i < 0 || i >= c.len() {
        Seq::empty()
    } else if is_blank(c[i]) {
        tokens_from(c, i + 1)
    } else if c[i] == '"' {
        let q = quoted_from(c, i + 1);
        proof {
            lemma_quoted_bounds(c, i + 1);
        }
        seq![(q.0, true)] + tokens_from(c, q.1)
    } else {
        let j = unquoted_end(c, i);
        proof {
            lemma_unquoted_bounds(c, i);
        }
        seq![(c.subrange(i, j), false)] + tokens_from(c, j)
    }
}

/// The tokens of one line: its text up to the first unquoted `#`, split at
/// runs of spaces and tabs, with quoted tokens unescaped.
pub open spec fn tokenize(line: Seq<char>) -> Seq<(Seq<char>, bool)> {
    tokens_from(line.take(comment_start(line, 0, false)), 0)
}

/// Position of the first unquoted `#` in `c`, or its length.
fn find_comment(c: &Vec<char>) -> (r: usize)
    ensures
        r == comment_start(c@, 0, false),
        r <= c.len(),
{
    let mut in_quote = false;
    let mut run: usize = 0;
    let mut i: usize = 0;
    proof {
        assert(c@.take(0) =~= Seq::<char>::empty());
    }
    while i < c.len()
        invariant
            i <= c.len(),
            run <= i,
            run == backslash_run(c@.take(i as int)),
            comment_start(c@, i as int, in_quote) == comment_start(c@, 0, false),
        decreases c.len() - i,
    {
        let ch = c[i];
        if ch == '"' && run % 2 == 0 {
            in_quote = !in_quote;
        } else if ch == '#' && !in_quote {
            return i;
        }
        proof {
            assert(c@.take(i + 1).drop_last() =~= c@.take(i as int));
            assert(c@.take(i + 1).last() == ch);
        }
        if ch == '\\' {
            run = run + 1;
        } else {
            run = 0;
        }
        i += 1;
    }
    i
}

/// Reads the quoted token whose body starts at `start`: its text and the
/// position after it.
pub fn parse_quoted_string(c: &Vec<char>, start: usize, end: usize) -> (r: (String, usize))
    requires
        start <= end <= c.len(),
    ensures
        (r.0@, r.1 as int) == quoted_from(c@.take(end as int), start as int),
        start <= r.1 <= end,
{
    let ghost s = c@.take(end as int);
    let mut out = String::new();
    let mut i: usize = start;
    proof {
        lemma_quoted_bounds(s, start as int);
    }
    while i < end
        invariant
            start <= i <= end <= c.len(),
            s == c@.take(end as int),
            quoted_from(s, start as int) == (out@ + quoted_from(s, i as int).0, quoted_from(
                s,
                i as int,
            ).1),
        decreases end - i,
    {
        let ch = c[i];
        if ch == '\\' {
            if i + 1 < end {
                let e = c[i + 1];
                let u = if e == 'n' {
                    '\n'
                } else if e == 't' {
                    '\t'
                } else if e == 'r' {
                    '\r'
                } else {
                    e
                };
                let ghost before = out@;
                push_char(&mut out, u);
                proof {
                    assert(before + quoted_from(s, i as int).0 =~= out@ + quoted_from(
                        s,
                        i + 2,
                    ).0);
                }
                i += 2;
            } else {
                push_char(&mut out, '\\');
                proof {
                    assert(quoted_from(s, i as int).0 =~= seq!['\\']);
                }
                return (out, i + 1);
            }
        } else if ch == '"' {
            proof {
                assert(out@ + quoted_from(s, i as int).0 =~= out@);
            }
            return (out, i + 1);
        } else {
            let ghost before = out@;
            push_char(&mut out, ch);
            proof {
                assert(before + quoted_from(s, i as int).0 =~= out@ + quoted_from(
                    s,
                    i + 1,
                ).0);
            }
            i += 1;
        }
    }
    proof {
        assert(out@ + quoted_from(s, i as int).0 =~= out@);
    }
    (out, i)
}

/// Splits one line into its tokens (see `tokenize`).
pub fn tokenize_line(c: &Vec<char>) -> (r: Vec<Token>)
    ensures
        tokens_view(r@) == tokenize(c@),
{
    let end = find_comment(c);
    let ghost s = c@.take(end as int);
    let mut toks: Vec<Token> = Vec::new();
    let mut i: usize = 0;
    proof {
        assert(tokens_view(toks@) + tokens_from(s, 0) =~= tokens_from(s, 0));
    }
    while i < end
        invariant
            i <= end <= c.len(),
            s == c@.take(end as int),
            tokens_view(toks@) + tokens_from(s, i as int) == tokenize(c@),
        decreases end - i,
    {
        if c[i] == ' ' || c[i] == '\t' {
            i += 1;
        } else if c[i] == '"' {
            let (text, next) = parse_quoted_string(c, i + 1, end);
            let ghost before = tokens_view(toks@);
            toks.push(Token { text, quoted: true });
            proof {
                assert(tokens_view(toks@) =~= before.push((text@, true)));
                assert(before + tokens_from(s, i as int) =~= tokens_view(toks@) + tokens_from(
                    s,
                    next as int,
                ));
            }
            i = next;
        } else {
            let start = i;
            while i < end && c[i] != ' ' && c[i] != '\t'
                invariant
                    start <= i <= end <= c.len(),
                    s == c@.take(end as int),
                    unquoted_end(s, start as int) == unquoted_end(s, i as int),
                decreases end - i,
            {
                i += 1;
            }
            let text = string_of(c, start, i);
            let ghost before = tokens_view(toks@);
            toks.push(Token { text, quoted: false });
            proof {
                assert(s.subrange(start as int, i as int) =~= c@.subrange(start as int, i as int));
                assert(tokens_view(toks@) =~= before.push((text@, false)));
                assert(before + tokens_from(s, start as int) =~= tokens_view(toks@)
                    + tokens_from(s, i as int));
            }
        }
    }
    proof {
        assert(tokens_view(toks@) + tokens_from(s, i as int) =~= tokens_view(toks@));
    }
    toks
}

} // verus!
