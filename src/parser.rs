//! Parsing ISON text into a document, block by block.
use vstd::prelude::*;
use crate::text::{chars_of, find, split, split_chars, string_of, trim, trim_bounds, push_all, alphabetic, char_is_alphabetic};
use crate::tokenizer::{Token, tokenize, tokenize_line, tokens_view};
use crate::classify::{classify, parse_value};
use crate::model::{Block, BlockV, Document, FieldInfo, FieldInfoV, ISONError, Row, ValueV, field_info_of, blocks_view, rows_view, strings_view, chars_eq_str};

verus! {

/// Mathematical view of an error: its message and its line.
pub struct ErrorV {
    pub message: Seq<char>,
    pub line: Option<int>,
}

impl View for ISONError {
    type V = ErrorV;

    open spec fn view(&self) -> ErrorV {
        ErrorV {
            message: self.message@,
            line: match self.line {
                Some(n) => Some(n as int),
                None => None,
            },
        }
    }
}

pub open spec fn is_pad(c: char) -> bool {
    c == ' ' || c == '\t' || c == '\r'
}

/// A blank line, or a comment line: after spaces, tabs and carriage
/// returns it is empty or starts with `#`.
pub open spec fn skippable(l: Seq<char>) -> bool {
    exists|k: int| pad_then_end_or_hash(l, k)
}

/// `l[..k]` is spaces, tabs and carriage returns, and `l[k..]` is empty or
/// starts with `#`.
pub open spec fn pad_then_end_or_hash(l: Seq<char>, k: int) -> bool {
    &&& 0 <= k <= l.len()
    &&& forall|i: int| 0 <= i < k ==> is_pad(#[trigger] l[i])
    &&& k == l.len() || l[k] == '#'
}

/// The first line at or after `i` that is not skippable, or the number of
/// lines.
pub open spec fn next_content(ls: Seq<Seq<char>>, i: int) -> int
    decreases ls.len() - i,
{
    if i < 0 || i >= ls.len() {
        ls.len() as int
    } else if skippable(ls[i]) {
        next_content(ls, i + 1)
    } else {
        i
    }
}

/// Kind and name of a header line: the trimmed text before and after its
/// first `.`, both non-empty.
pub open spec fn header_of(h: Seq<char>) -> Option<(Seq<char>, Seq<char>)> {
    match find(h, '.') {
        Some(d) => {
            let kind = trim(h.take(d));
            let name = trim(h.subrange(d + 1, h.len() as int));
            if kind.len() == 0 || name.len() == 0 {
                None
            } else {
                Some((kind, name))
            }
        },
        None => None,
    }
}

/// A field definition token: `name` or `name:type`, split at the first `:`.
pub open spec fn field_def(t: Seq<char>) -> FieldInfoV {
    match find(t, ':') {
        Some(k) => field_info_of(t.take(k), Some(t.subrange(k + 1, t.len() as int))),
        None => field_info_of(t, None),
    }
}

pub open spec fn field_defs(toks: Seq<(Seq<char>, bool)>) -> Seq<FieldInfoV> {
    toks.map_values(|t: (Seq<char>, bool)| field_def(t.0))
}

pub open spec fn field_names(f: Seq<FieldInfoV>) -> Seq<Seq<char>> {
    f.map_values(|i: FieldInfoV| i.name)
}

/// The row made of the first `n` tokens, each under the field at its
/// position; `Err(k)` when token `k` is a malformed reference.
pub open spec fn row_from(fields: Seq<Seq<char>>, toks: Seq<(Seq<char>, bool)>, n: int) -> Result<
    Map<Seq<char>, ValueV>,
    int,
>
    decreases n,
{
    if n <= 0 {
        Ok(Map::empty())
    } else {
        match row_from(fields, toks, n - 1) {
            Ok(m) => match classify(toks[n - 1]) {
                Some(v) => Ok(m.insert(fields[n - 1], v)),
                None => Err(n - 1),
            },
            Err(k) => Err(k),
        }
    }
}

pub open spec fn min(a: int, b: int) -> int {
    if a < b {
        a
    } else {
        b
    }
}

/// The row of a data line: tokens beyond the fields are ignored, fields
/// beyond the tokens are left out.
pub open spec fn row_of(fields: Seq<Seq<char>>, toks: Seq<(Seq<char>, bool)>) -> Result<
    Map<Seq<char>, ValueV>,
    int,
> {
    row_from(fields, toks, min(fields.len() as int, toks.len() as int))
}

/// A trimmed line that ends the rows of a block: an empty one, or one that
/// looks like the next header (it starts with a letter and holds a `.`).
pub open spec fn ends_block(l: Seq<char>) -> bool {
    l.len() == 0 || (alphabetic(l[0]) && l.contains('.'))
}

pub open spec fn reference_error(tok: Seq<char>, line: int) -> ErrorV {
    ErrorV { message: "Invalid reference: "@ + tok, line: Some(line) }
}

pub open spec fn header_error(h: Seq<char>, line: int) -> ErrorV {
    ErrorV { message: "Invalid block header: "@ + h, line: Some(line) }
}

/// A sequence of rows, each a map from field name to value.
pub type Rows = Seq<Map<Seq<char>, ValueV>>;

/// The rows of a block from line `k` on, with the rows read so far; the
/// result also gives the line where the next block may start.
pub open spec fn rows_from(
    ls: Seq<Seq<char>>,
    k: int,
    fields: Seq<Seq<char>>,
    in_summary: bool,
    rows: Rows,
    summary: Rows,
) -> Result<(Rows, Rows, int), ErrorV>
    decreases ls.len() - k,
{
    if k < 0 || k >= ls.len() {
        Ok((rows, summary, k))
    } else {
        let l = trim(ls[k]);
        if ends_block(l) {
            Ok((rows, summary, k))
        } else if l[0] == '#' {
            rows_from(ls, k + 1, fields, in_summary, rows, summary)
        } else if l == "---"@ {
            rows_from(ls, k + 1, fields, true, rows, summary)
        } else {
            let toks = tokenize(l);
            if toks.len() == 0 {
                Ok((rows, summary, k + 1))
            } else {
                match row_of(fields, toks) {
                    Ok(r) => if in_summary {
                        rows_from(ls, k + 1, fields, in_summary, rows, summary.push(r))
                    } else {
                        rows_from(ls, k + 1, fields, in_summary, rows.push(r), summary)
                    },
                    Err(j) => Err(reference_error(toks[j].0, k + 1)),
                }
            }
        }
    }
}

pub open spec fn prepend(b: BlockV, rest: Result<Seq<BlockV>, ErrorV>) -> Result<
    Seq<BlockV>,
    ErrorV,
> {
    match rest {
        Ok(bs) => Ok(seq![b] + bs),
        Err(e) => Err(e),
    }
}

pub open spec fn prepend_all(bs: Seq<BlockV>, rest: Result<Seq<BlockV>, ErrorV>) -> Result<
    Seq<BlockV>,
    ErrorV,
> {
    match rest {
        Ok(x) => Ok(bs + x),
        Err(e) => Err(e),
    }
}

pub open spec fn block_of(
    kind: Seq<char>,
    name: Seq<char>,
    defs: Seq<FieldInfoV>,
    rows: Rows,
    summary: Rows,
) -> BlockV {
    BlockV {
        kind,
        name,
        fields: field_names(defs),
        field_info: defs,
        rows,
        summary_rows: summary,
    }
}

pub proof fn lemma_next_content_bounds(ls: Seq<Seq<char>>, i: int)
    requires
        0 <= i,
    ensures
        i <= next_content(ls, i) || i > ls.len(),
        next_content(ls, i) <= ls.len(),
    decreases ls.len() - i,
{
    if i < ls.len() && skippable(ls[i]) {
        lemma_next_content_bounds(ls, i + 1);
    }
}

pub proof fn lemma_rows_from_advances(
    ls: Seq<Seq<char>>,
    k: int,
    fields: Seq<Seq<char>>,
    in_summary: bool,
    rows: Rows,
    summary: Rows,
)
    requires
        0 <= k,
    ensures
        rows_from(ls, k, fields, in_summary, rows, summary) is Ok ==> rows_from(
            ls,
            k,
            fields,
            in_summary,
            rows,
            summary,
        )->Ok_0.2 >= k,
        rows_from(ls, k, fields, in_summary, rows, summary) is Ok && k <= ls.len() ==> rows_from(
            ls,
            k,
            fields,
            in_summary,
            rows,
            summary,
        )->Ok_0.2 <= ls.len(),
    decreases ls.len() - k,
{
    if k < ls.len() {
        let l = trim(ls[k]);
        if ends_block(l) {
        } else if l[0] == '#' {
            lemma_rows_from_advances(ls, k + 1, fields, in_summary, rows, summary);
        } else if l == "---"@ {
            lemma_rows_from_advances(ls, k + 1, fields, true, rows, summary);
        } else {
            let toks = tokenize(l);
            if toks.len() != 0 {
                match row_of(fields, toks) {
                    Ok(r) => if in_summary {
                        lemma_rows_from_advances(ls, k + 1, fields, in_summary, rows, summary.push(r));
                    } else {
                        lemma_rows_from_advances(ls, k + 1, fields, in_summary, rows.push(r), summary);
                    },
                    Err(j) => {},
                }
            }
        }
    }
}

/// The blocks of the lines from `i` on.
pub open spec fn blocks_from(ls: Seq<Seq<char>>, i: int) -> Result<Seq<BlockV>, ErrorV>
    decreases ls.len() - i,
{
    if i < 0 || i >= ls.len() {
        Ok(Seq::empty())
    } else if skippable(ls[i]) {
        blocks_from(ls, i + 1)
    } else {
        let h = trim(ls[i]);
        if h.len() == 0 || h[0] == '#' {
            blocks_from(ls, i + 1)
        } else {
            match header_of(h) {
                None => Err(header_error(h, i + 1)),
                Some(kn) => {
                    let j = next_content(ls, i + 1);
                    proof {
                        lemma_next_content_bounds(ls, i + 1);
                    }
                    if j >= ls.len() {
                        prepend(block_of(kn.0, kn.1, Seq::empty(), Seq::empty(), Seq::empty()), Ok(Seq::empty()))
                    } else {
                        let defs = field_defs(tokenize(trim(ls[j])));
                        match rows_from(ls, j + 1, field_names(defs), false, Seq::empty(), Seq::empty()) {
                            Ok(res) => {
                                proof {
                                    lemma_rows_from_advances(ls, j + 1, field_names(defs), false, Seq::empty(), Seq::empty());
                                }
                                prepend(block_of(kn.0, kn.1, defs, res.0, res.1), blocks_from(ls, res.2))
                            },
                            Err(e) => Err(e),
                        }
                    }
                }
            }
        }
    }
}

/// The document that ISON text denotes, or the first error in it.
pub open spec fn parse_spec(text: Seq<char>) -> Result<Seq<BlockV>, ErrorV> {
    blocks_from(split(text, '\n'), 0)
}

} // verus!

verus! {

pub proof fn lemma_find(s: Seq<char>, c: char, i: int)
    requires
        0 <= i <= s.len(),
        forall|k: int| 0 <= k < i ==> #[trigger] s[k] != c,
        i < s.len() ==> s[i] == c,
    ensures
        find(s, c) == (if i < s.len() {
            Some(i)
        } else {
            None::<int>
        }),
    decreases s.len(),
{
    if s.len() > 0 && i > 0 {
        assert forall|k: int| 0 <= k < i - 1 implies #[trigger] s.drop_first()[k] != c by {
            assert(s.drop_first()[k] == s[k + 1]);
        }
        lemma_find(s.drop_first(), c, i - 1);
    }
}

/// Position of the first `ch` in `c`.
pub fn find_char(c: &Vec<char>, ch: char) -> (r: Option<usize>)
    ensures
        match r {
            Some(i) => find(c@, ch) == Some(i as int) && i < c.len(),
            None => find(c@, ch) is None,
        },
{
    let mut i: usize = 0;
    while i < c.len()
        invariant
            i <= c.len(),
            forall|k: int| 0 <= k < i ==> #[trigger] c@[k] != ch,
        decreases c.len() - i,
    {
        if c[i] == ch {
            proof {
                lemma_find(c@, ch, i as int);
            }
            return Some(i);
        }
        i += 1;
    }
    proof {
        lemma_find(c@, ch, i as int);
    }
    None
}

/// The characters `c[lo..hi]`.
pub fn slice_chars(c: &Vec<char>, lo: usize, hi: usize) -> (r: Vec<char>)
    requires
        lo <= hi <= c.len(),
    ensures
        r@ == c@.subrange(lo as int, hi as int),
{
    let mut v: Vec<char> = Vec::new();
    let mut i: usize = lo;
    while i < hi
        invariant
            lo <= i <= hi <= c.len(),
            v@ == c@.subrange(lo as int, i as int),
        decreases hi - i,
    {
        v.push(c[i]);
        i += 1;
        proof {
            assert(v@ =~= c@.subrange(lo as int, i as int));
        }
    }
    v
}

/// `c` without leading and trailing white space.
pub fn trimmed(c: &Vec<char>) -> (r: Vec<char>)
    ensures
        r@ == trim(c@),
{
    let (lo, hi) = trim_bounds(c, 0, c.len());
    proof {
        assert(c@.subrange(0, c.len() as int) =~= c@);
    }
    slice_chars(c, lo, hi)
}

/// Whether a line is blank or a comment line (see `skippable`).
pub fn skippable_line(l: &Vec<char>) -> (r: bool)
    ensures
        r == skippable(l@),
{
    let mut k: usize = 0;
    while k < l.len() && (l[k] == ' ' || l[k] == '\t' || l[k] == '\r')
        invariant
            k <= l.len(),
            forall|i: int| 0 <= i < k ==> is_pad(#[trigger] l@[i]),
        decreases l.len() - k,
    {
        k += 1;
    }
    let r = k == l.len() || l[k] == '#';
    proof {
        if r {
            assert(pad_then_end_or_hash(l@, k as int));
        }
        if !r {
            assert forall|w: int| !pad_then_end_or_hash(l@, w) by {
                if 0 <= w < k {
                    assert(is_pad(l@[w]));
                } else if k < w <= l@.len() {
                    if forall|i: int| 0 <= i < w ==> is_pad(#[trigger] l@[i]) {
                        assert(is_pad(l@[k as int]));
                    }
                }
            }
            assert(!skippable(l@));
        }
    }
    r
}

/// A parse error at a line, its message made of `prefix` and `text`.
pub(crate) fn error_at(prefix: &str, text: &Vec<char>, line: usize) -> (r: ISONError)
    ensures
        r@ == (ErrorV { message: prefix@ + text@, line: Some(line as int) }),
{
    let mut message = String::from_str(prefix);
    push_all(&mut message, text);
    ISONError { message, line: Some(line) }
}

/// The declaration of one field definition token.
pub fn parse_field_def(t: &Vec<char>) -> (r: FieldInfo)
    ensures
        r@ == field_def(t@),
{
    match find_char(t, ':') {
        Some(k) => {
            let name = string_of(t, 0, k);
            let ty = string_of(t, k + 1, t.len());
            proof {
                assert(t@.subrange(0, k as int) =~= t@.take(k as int));
            }
            FieldInfo::from_parts(name, Some(ty))
        },
        None => {
            let name = string_of(t, 0, t.len());
            proof {
                assert(t@.subrange(0, t.len() as int) =~= t@);
            }
            FieldInfo::from_parts(name, None)
        },
    }
}

/// Declares the fields of `toks` in `block`.
pub fn declare_fields(block: &mut Block, toks: &Vec<Token>)
    requires
        old(block)@.fields.len() == 0,
        old(block)@.field_info.len() == 0,
    ensures
        final(block)@ == (BlockV {
            fields: field_names(field_defs(tokens_view(toks@))),
            field_info: field_defs(tokens_view(toks@)),
            ..old(block)@
        }),
{
    let ghost defs = field_defs(tokens_view(toks@));
    let mut i: usize = 0;
    proof {
        assert(defs.take(0) =~= Seq::<FieldInfoV>::empty());
        assert(field_names(defs.take(0)) =~= Seq::<Seq<char>>::empty());
        assert(block@.fields =~= field_names(defs.take(0)));
        assert(block@.field_info =~= defs.take(0));
    }
    while i < toks.len()
        invariant
            i <= toks.len(),
            defs == field_defs(tokens_view(toks@)),
            block@ == (BlockV {
                fields: field_names(defs.take(i as int)),
                field_info: defs.take(i as int),
                ..old(block)@
            }),
        decreases toks.len() - i,
    {
        let t = chars_of(toks[i].text.as_str());
        let info = parse_field_def(&t);
        let name = info.name.clone();
        let ghost nv = name@;
        let ghost iv = info@;
        let ghost prev = block@.fields;
        block.fields.push(name);
        block.field_info.push(info);
        i += 1;
        proof {
            assert(defs[i - 1] == field_def(toks@[i - 1].text@));
            assert(iv == defs[i - 1]);
            assert(nv == defs[i - 1].name);
            assert(block@.fields =~= prev.push(nv));
            assert(field_names(defs.take(i as int)) =~= field_names(defs.take(i - 1)).push(nv));
            assert(block@.field_info =~= defs.take(i as int));
            assert(block@.fields =~= field_names(defs.take(i as int)));
        }
    }
    proof {
        assert(defs.take(i as int) =~= defs);
    }
}

proof fn lemma_row_err_stays(fields: Seq<Seq<char>>, toks: Seq<(Seq<char>, bool)>, k: int, n: int)
    requires
        0 <= k < n,
        row_from(fields, toks, k + 1) == Err::<Map<Seq<char>, ValueV>, int>(k),
    ensures
        row_from(fields, toks, n) == Err::<Map<Seq<char>, ValueV>, int>(k),
    decreases n,
{
    if n > k + 1 {
        lemma_row_err_stays(fields, toks, k, n - 1);
    }
}

/// The row of a data line's tokens (see `row_of`); `Err(k)` names the
/// first malformed reference.
pub fn build_row(fields: &Vec<String>, toks: &Vec<Token>) -> (r: Result<Row, usize>)
    ensures
        match r {
            Ok(row) => row_of(strings_view(fields@), tokens_view(toks@)) == Ok::<
                Map<Seq<char>, ValueV>,
                int,
            >(row@),
            Err(k) => row_of(strings_view(fields@), tokens_view(toks@)) == Err::<
                Map<Seq<char>, ValueV>,
                int,
            >(k as int) && k < toks.len(),
        },
{
    let ghost fs = strings_view(fields@);
    let ghost ts = tokens_view(toks@);
    let n: usize = if fields.len() < toks.len() {
        fields.len()
    } else {
        toks.len()
    };
    let mut row = Row::new();
    let mut i: usize = 0;
    while i < n
        invariant
            i <= n,
            n as int == min(fields.len() as int, toks.len() as int),
            fs == strings_view(fields@),
            ts == tokens_view(toks@),
            row_from(fs, ts, i as int) == Ok::<Map<Seq<char>, ValueV>, int>(row@),
        decreases n - i,
    {
        match parse_value(&toks[i]) {
            Some(v) => {
                row.insert(fields[i].clone(), v);
            },
            None => {
                proof {
                    lemma_row_err_stays(fs, ts, i as int, n as int);
                }
                return Err(i);
            },
        }
        i += 1;
    }
    Ok(row)
}

} // verus!

verus! {

pub open spec fn lines_view(ls: Seq<Vec<char>>) -> Seq<Seq<char>> {
    ls.map_values(|l: Vec<char>| l@)
}

/// Whether `c` holds `ch`.
pub fn contains_char(c: &Vec<char>, ch: char) -> (r: bool)
    ensures
        r == c@.contains(ch),
{
    let mut i: usize = 0;
    while i < c.len()
        invariant
            i <= c.len(),
            forall|k: int| 0 <= k < i ==> #[trigger] c@[k] != ch,
        decreases c.len() - i,
    {
        if c[i] == ch {
            return true;
        }
        i += 1;
    }
    false
}

/// Kind and name of a header line (see `header_of`).
pub fn header_split(h: &Vec<char>) -> (r: Option<(String, String)>)
    ensures
        match r {
            Some(kn) => header_of(h@) == Some((kn.0@, kn.1@)),
            None => header_of(h@) is None,
        },
{
    match find_char(h, '.') {
        Some(d) => {
            let (klo, khi) = trim_bounds(h, 0, d);
            let (nlo, nhi) = trim_bounds(h, d + 1, h.len());
            proof {
                assert(h@.subrange(0, d as int) =~= h@.take(d as int));
            }
            if klo == khi || nlo == nhi {
                None
            } else {
                Some((string_of(h, klo, khi), string_of(h, nlo, nhi)))
            }
        },
        None => None,
    }
}

/// Reads the rows of `block` from line `j` on; returns the line where the
/// next block may start.
pub fn read_rows(ls: &Vec<Vec<char>>, j: usize, block: &mut Block) -> (r: Result<usize, ISONError>)
    requires
        j <= ls.len(),
        old(block)@.rows.len() == 0,
        old(block)@.summary_rows.len() == 0,
    ensures
        match rows_from(lines_view(ls@), j as int, old(block)@.fields, false, Seq::empty(), Seq::empty()) {
            Ok(res) => r is Ok && r->Ok_0 as int == res.2 && final(block)@ == (BlockV {
                rows: res.0,
                summary_rows: res.1,
                ..old(block)@
            }),
            Err(e) => r is Err && r->Err_0@ == e,
        },
        r is Ok ==> j <= r->Ok_0 <= ls.len(),
{
    let ghost lv = lines_view(ls@);
    let ghost f = old(block)@.fields;
    let ghost start = rows_from(lv, j as int, f, false, Seq::empty(), Seq::empty());
    let mut k: usize = j;
    let mut in_summary = false;
    proof {
        assert(rows_view(block.rows@) =~= Seq::empty());
        assert(rows_view(block.summary_rows@) =~= Seq::empty());
    }
    while k < ls.len()
        invariant
            j <= k <= ls.len(),
            lv == lines_view(ls@),
            f == old(block)@.fields,
            start == rows_from(lv, j as int, f, false, Seq::empty(), Seq::empty()),
            start == rows_from(lv, k as int, f, in_summary, block@.rows, block@.summary_rows),
            block@ == (BlockV { rows: block@.rows, summary_rows: block@.summary_rows, ..old(block)@ }),
        decreases ls.len() - k,
    {
        let l = trimmed(&ls[k]);
        proof {
            assert(lv[k as int] == ls@[k as int]@);
        }
        if l.len() == 0 {
            return Ok(k);
        }
        if char_is_alphabetic(l[0]) && contains_char(&l, '.') {
            return Ok(k);
        }
        if l[0] == '#' {
            k += 1;
            continue;
        }
        if chars_eq_str(&l, "---") {
            in_summary = true;
            k += 1;
            continue;
        }
        let toks = tokenize_line(&l);
        if toks.len() == 0 {
            return Ok(k + 1);
        }
        match build_row(&block.fields, &toks) {
            Ok(row) => {
                let ghost rv = row@;
                let ghost prev_rows = block@.rows;
                let ghost prev_summary = block@.summary_rows;
                if in_summary {
                    block.summary_rows.push(row);
                    proof {
                        assert(block@.summary_rows =~= prev_summary.push(rv));
                        assert(block@.rows =~= prev_rows);
                    }
                } else {
                    block.rows.push(row);
                    proof {
                        assert(block@.rows =~= prev_rows.push(rv));
                        assert(block@.summary_rows =~= prev_summary);
                    }
                }
                k += 1;
            },
            Err(t) => {
                let tc = chars_of(toks[t].text.as_str());
                return Err(error_at("Invalid reference: ", &tc, k + 1));
            },
        }
    }
    Ok(k)
}

} // verus!

verus! {

/// Parses ISON text into a document (see `parse_spec`).
pub fn parse(text: &str) -> (r: Result<Document, ISONError>)
    ensures
        match parse_spec(text@) {
            Ok(d) => r is Ok && r->Ok_0@ == d,
            Err(e) => r is Err && r->Err_0@ == e,
        },
{
    let c = chars_of(text);
    let ls = split_chars(&c, '\n');
    let ghost lv = lines_view(ls@);
    let mut blocks: Vec<Block> = Vec::new();
    let mut i: usize = 0;
    proof {
        assert(prepend_all(blocks_view(blocks@), blocks_from(lv, 0)) =~= blocks_from(lv, 0)) by {
            assert(blocks_view(blocks@) =~= Seq::<BlockV>::empty());
            match blocks_from(lv, 0) {
                Ok(x) => assert(Seq::<BlockV>::empty() + x =~= x),
                Err(e) => {},
            }
        }
    }
    while i < ls.len()
        invariant
            i <= ls.len(),
            lv == lines_view(ls@),
            lv == split(text@, '\n'),
            prepend_all(blocks_view(blocks@), blocks_from(lv, i as int)) == blocks_from(lv, 0),
        decreases ls.len() - i,
    {
        proof {
            assert(lv[i as int] == ls@[i as int]@);
        }
        if skippable_line(&ls[i]) {
            i += 1;
            continue;
        }
        let h = trimmed(&ls[i]);
        if h.len() == 0 || h[0] == '#' {
            i += 1;
            continue;
        }
        let (kind, name) = match header_split(&h) {
            Some(kn) => kn,
            None => {
                return Err(error_at("Invalid block header: ", &h, i + 1));
            },
        };
        let mut block = Block::from_header(kind, name);
        let mut j: usize = i + 1;
        while j < ls.len() && skippable_line(&ls[j])
            invariant
                i < j <= ls.len(),
                lv == lines_view(ls@),
                next_content(lv, i + 1) == next_content(lv, j as int),
            decreases ls.len() - j,
        {
            proof {
                assert(lv[j as int] == ls@[j as int]@);
            }
            j += 1;
        }
        proof {
            if j < ls.len() {
                assert(lv[j as int] == ls@[j as int]@);
            }
        }
        let ghost bs = blocks_view(blocks@);
        if j >= ls.len() {
            proof {
                assert(block@ == block_of(kind@, name@, Seq::empty(), Seq::empty(), Seq::empty())) by {
                    assert(block@.fields =~= field_names(Seq::empty()));
                    assert(block@.field_info =~= Seq::<FieldInfoV>::empty());
                    assert(block@.rows =~= Seq::empty());
                    assert(block@.summary_rows =~= Seq::empty());
                }
            }
            blocks.push(block);
            i = j;
            proof {
                assert(blocks_view(blocks@) =~= bs.push(block@));
                match blocks_from(lv, 0) {
                    Ok(x) => {
                        assert(bs + seq![block@] =~= blocks_view(blocks@));
                        assert(blocks_view(blocks@) + Seq::<BlockV>::empty() =~= blocks_view(blocks@));
                    },
                    Err(e) => {},
                }
            }
        } else {
            let fl = trimmed(&ls[j]);
            let toks = tokenize_line(&fl);
            declare_fields(&mut block, &toks);
            match read_rows(&ls, j + 1, &mut block) {
                Ok(k) => {
                    proof {
                        let defs = field_defs(tokenize(trim(lv[j as int])));
                        assert(block@.field_info == defs);
                    }
                    blocks.push(block);
                    proof {
                        assert(blocks_view(blocks@) =~= bs.push(block@));
                        match blocks_from(lv, k as int) {
                            Ok(x) => {
                                assert(bs + (seq![block@] + x) =~= blocks_view(blocks@) + x);
                            },
                            Err(e) => {},
                        }
                    }
                    i = k;
                },
                Err(e) => {
                    return Err(e);
                },
            }
        }
    }
    proof {
        match blocks_from(lv, 0) {
            Ok(x) => assert(blocks_view(blocks@) + Seq::<BlockV>::empty() =~= blocks_view(blocks@)),
            Err(e) => {},
        }
    }
    Ok(Document { blocks })
}

} // verus!
