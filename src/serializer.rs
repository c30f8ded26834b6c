//! Writing a document as ISON text, optionally with aligned columns.
use vstd::prelude::*;
use crate::text::{chars_of, push_char, push_all, push_str};
use crate::classify::{is_float_literal, is_float_text};
use crate::model::{Block, BlockV, Document, FieldInfoV, Row, Value, ValueV, chars_eq_str, int_text, i64_text, ref_text, rows_view};

verus! {

/// Whether a string must be quoted so that it reads back as the same
/// string: it holds a blank, a line break, a quote or a backslash, is a
/// keyword, starts with `:`, or reads as a number.
pub open spec fn needs_quotes(s: Seq<char>) -> bool {
    s.contains(' ') || s.contains('\t') || s.contains('\n') || s.contains('"') || s.contains('\\')
        || s == "true"@ || s == "false"@ || s == "null"@ || (s.len() > 0 && s[0] == ':')
        || is_float_literal(s)
}

/// The escape sequence for one character inside quotes.
pub open spec fn escape(c: char) -> Seq<char> {
    if c == '\\' {
        seq!['\\', '\\']
    } else if c == '"' {
        seq!['\\', '"']
    } else if c == '\n' {
        seq!['\\', 'n']
    } else if c == '\t' {
        seq!['\\', 't']
    } else if c == '\r' {
        seq!['\\', 'r']
    } else {
        seq![c]
    }
}

pub open spec fn escaped(s: Seq<char>) -> Seq<char>
    decreases s.len(),
{
    if s.len() == 0 {
        Seq::empty()
    } else {
        escaped(s.drop_last()) + escape(s.last())
    }
}

/// A string as written in ISON text.
pub open spec fn string_text(s: Seq<char>) -> Seq<char> {
    if needs_quotes(s) {
        seq!['"'] + escaped(s) + seq!['"']
    } else {
        s
    }
}

/// A value as written in ISON text.
pub open spec fn value_text(v: ValueV) -> Seq<char> {
    match v {
        ValueV::Null => "null"@,
        ValueV::Bool(b) => if b {
            "true"@
        } else {
            "false"@
        },
        ValueV::Int(i) => int_text(i),
        ValueV::Float(t) => t,
        ValueV::Str(s) => string_text(s),
        ValueV::Ref(r) => ref_text(r),
    }
}

/// The text of a row's value for field `f`; a missing value reads `null`.
pub open spec fn cell_text(row: Map<Seq<char>, ValueV>, f: Seq<char>) -> Seq<char> {
    if row.contains_key(f) {
        value_text(row[f])
    } else {
        "null"@
    }
}

/// `parts` joined with `sep` between each two.
pub open spec fn join(parts: Seq<Seq<char>>, sep: Seq<char>) -> Seq<char>
    decreases parts.len(),
{
    if parts.len() == 0 {
        Seq::empty()
    } else if parts.len() == 1 {
        parts[0]
    } else {
        join(parts.drop_last(), sep) + sep + parts.last()
    }
}

/// The widest of `init` and the texts that `rows` render for field `f`
/// (`null` where a row holds no value for it).
pub open spec fn width_over(rows: Seq<Map<Seq<char>, ValueV>>, f: Seq<char>, init: int) -> int
    decreases rows.len(),
{
    if rows.len() == 0 {
        init
    } else {
        let w = width_over(rows.drop_last(), f, init);
        let n = cell_text(rows.last(), f).len() as int;
        if n > w {
            n
        } else {
            w
        }
    }
}

/// Width of column `i`: its field name and every value in it, summary rows
/// included.
pub open spec fn col_width(b: BlockV, i: int) -> int {
    width_over(b.rows + b.summary_rows, b.fields[i], b.fields[i].len() as int)
}

/// `t` padded with spaces to width `w`.
pub open spec fn pad(t: Seq<char>, w: int) -> Seq<char> {
    if t.len() < w {
        t + Seq::new((w - t.len()) as nat, |i: int| ' ')
    } else {
        t
    }
}

/// The cells of a row line; when aligned, each but the last is padded to
/// its column's width.
pub open spec fn row_cells(b: BlockV, row: Map<Seq<char>, ValueV>, align: bool) -> Seq<Seq<char>> {
    Seq::new(
        b.fields.len(),
        |i: int|
            if align && i < b.fields.len() - 1 {
                pad(cell_text(row, b.fields[i]), col_width(b, i))
            } else {
                cell_text(row, b.fields[i])
            },
    )
}

pub open spec fn row_line(b: BlockV, row: Map<Seq<char>, ValueV>, align: bool) -> Seq<char> {
    join(row_cells(b, row, align), seq![' '])
}

/// `name`, or `name:type`.
pub open spec fn def_text(f: FieldInfoV) -> Seq<char> {
    match f.field_type {
        Some(t) => f.name + seq![':'] + t,
        None => f.name,
    }
}

pub open spec fn fields_line(b: BlockV) -> Seq<char> {
    join(b.field_info.map_values(|f: FieldInfoV| def_text(f)), seq![' '])
}

/// The lines of a block: header, field definitions, rows, and when there
/// are summary rows, `---` and those rows.
pub open spec fn block_lines(b: BlockV, align: bool) -> Seq<Seq<char>> {
    let head = seq![b.kind + seq!['.'] + b.name, fields_line(b)];
    let rows = b.rows.map_values(|r: Map<Seq<char>, ValueV>| row_line(b, r, align));
    let summary = b.summary_rows.map_values(|r: Map<Seq<char>, ValueV>| row_line(b, r, align));
    if b.summary_rows.len() == 0 {
        head + rows
    } else {
        head + rows + seq!["---"@] + summary
    }
}

pub open spec fn block_text(b: BlockV, align: bool) -> Seq<char> {
    join(block_lines(b, align), seq!['\n'])
}

/// A document as ISON text: its blocks, a blank line between each two.
pub open spec fn document_text(d: Seq<BlockV>, align: bool) -> Seq<char> {
    join(d.map_values(|b: BlockV| block_text(b, align)), seq!['\n', '\n'])
}

pub proof fn lemma_join_push(parts: Seq<Seq<char>>, sep: Seq<char>, p: Seq<char>)
    ensures
        join(parts.push(p), sep) == if parts.len() == 0 {
            p
        } else {
            join(parts, sep) + sep + p
        },
{
    assert(parts.push(p).drop_last() =~= parts);
    if parts.len() == 0 {
        assert(parts.push(p)[0] == p);
    }
}

/// Whether the string must be quoted (see `needs_quotes`).
fn needs_quotes_exec(c: &Vec<char>) -> (r: bool)
    ensures
        r == needs_quotes(c@),
{
    let mut i: usize = 0;
    while i < c.len()
        invariant
            i <= c.len(),
            forall|k: int| 0 <= k < i ==> #[trigger] c@[k] != ' ' && c@[k] != '\t' && c@[k] != '\n' && c@[k] != '"' && c@[k] != '\\',
        decreases c.len() - i,
    {
        let ch = c[i];
        if ch == ' ' || ch == '\t' || ch == '\n' || ch == '"' || ch == '\\' {
            proof {
                assert(c@[i as int] == ch);
            }
            return true;
        }
        i += 1;
    }
    chars_eq_str(c, "true") || chars_eq_str(c, "false") || chars_eq_str(c, "null") || (c.len() > 0
        && c[0] == ':') || is_float_text(c)
}

/// Appends a string as written in ISON text: quoted and escaped where it
/// must be.
pub fn serialize_string(out: &mut String, s: &str)
    ensures
        final(out)@ == old(out)@ + string_text(s@),
{
    let c = chars_of(s);
    if !needs_quotes_exec(&c) {
        push_all(out, &c);
        return;
    }
    push_char(out, '"');
    let ghost base = out@;
    let mut i: usize = 0;
    while i < c.len()
        invariant
            i <= c.len(),
            c@ == s@,
            out@ == base + escaped(c@.take(i as int)),
        decreases c.len() - i,
    {
        let ch = c[i];
        if ch == '\\' {
            push_char(out, '\\');
            push_char(out, '\\');
        } else if ch == '"' {
            push_char(out, '\\');
            push_char(out, '"');
        } else if ch == '\n' {
            push_char(out, '\\');
            push_char(out, 'n');
        } else if ch == '\t' {
            push_char(out, '\\');
            push_char(out, 't');
        } else if ch == '\r' {
            push_char(out, '\\');
            push_char(out, 'r');
        } else {
            push_char(out, ch);
        }
        proof {
            assert(c@.take(i + 1).drop_last() =~= c@.take(i as int));
            assert(out@ =~= base + escaped(c@.take(i + 1)));
        }
        i += 1;
    }
    push_char(out, '"');
    proof {
        assert(c@.take(c.len() as int) =~= c@);
        assert(out@ =~= old(out)@ + string_text(s@));
    }
}

/// Appends a value as written in ISON text.
pub fn serialize_value(out: &mut String, v: &Value)
    ensures
        final(out)@ == old(out)@ + value_text(v@),
{
    match v {
        Value::Null => push_str(out, "null"),
        Value::Bool(b) => if *b {
            push_str(out, "true")
        } else {
            push_str(out, "false")
        },
        Value::Int(i) => {
            let t = i64_text(*i);
            out.append(t.as_str());
        },
        Value::Float(t) => out.append(t.as_str()),
        Value::String(s) => serialize_string(out, s.as_str()),
        Value::Reference(r) => {
            let t = r.to_ison();
            out.append(t.as_str());
        },
    }
}

/// Number of characters of a value's text.
fn value_width(v: &Value) -> (r: usize)
    ensures
        r == value_text(v@).len(),
{
    let mut s = String::new();
    serialize_value(&mut s, v);
    let c = chars_of(s.as_str());
    proof {
        assert(s@ =~= value_text(v@));
    }
    c.len()
}

proof fn lemma_width_over_concat(a: Seq<Map<Seq<char>, ValueV>>, b: Seq<Map<Seq<char>, ValueV>>, f: Seq<char>, init: int)
    ensures
        width_over(a + b, f, init) == width_over(b, f, width_over(a, f, init)),
    decreases b.len(),
{
    if b.len() == 0 {
        assert(a + b =~= a);
    } else {
        assert((a + b).drop_last() =~= a + b.drop_last());
        lemma_width_over_concat(a, b.drop_last(), f, init);
    }
}

/// `width_over` of the rows, starting from `w`.
fn widen(rows: &Vec<Row>, f: &str, w: usize) -> (r: usize)
    ensures
        r == width_over(rows_view(rows@), f@, w as int),
{
    let ghost rv = rows_view(rows@);
    let mut acc = w;
    let mut k: usize = 0;
    while k < rows.len()
        invariant
            k <= rows.len(),
            rv == rows_view(rows@),
            acc == width_over(rv.take(k as int), f@, w as int),
        decreases rows.len() - k,
    {
        proof {
            assert(rv.take(k + 1).drop_last() =~= rv.take(k as int));
            assert(rv.take(k + 1).last() == rows@[k as int]@);
        }
        match rows[k].get(f) {
            Some(v) => {
                let n = value_width(v);
                if n > acc {
                    acc = n;
                }
            },
            None => {
                proof {
                    reveal_strlit("null");
                }
                if 4 > acc {
                    acc = 4;
                }
            },
        }
        k += 1;
    }
    proof {
        assert(rv.take(k as int) =~= rv);
    }
    acc
}

/// The width of every column (see `col_width`).
fn calculate_widths(b: &Block) -> (r: Vec<usize>)
    ensures
        r.len() == b.fields.len(),
        forall|i: int| 0 <= i < r.len() ==> r@[i] == col_width(b@, i),
{
    let mut widths: Vec<usize> = Vec::new();
    let mut i: usize = 0;
    while i < b.fields.len()
        invariant
            i <= b.fields.len(),
            widths.len() == i,
            forall|k: int| 0 <= k < i ==> widths@[k] == col_width(b@, k),
        decreases b.fields.len() - i,
    {
        let f = b.fields[i].as_str();
        let n = chars_of(f).len();
        let w1 = widen(&b.rows, f, n);
        let w2 = widen(&b.summary_rows, f, w1);
        proof {
            assert(b@.fields[i as int] == b.fields@[i as int]@);
            lemma_width_over_concat(b@.rows, b@.summary_rows, f@, n as int);
        }
        widths.push(w2);
        i += 1;
    }
    widths
}

} // verus!

verus! {

/// Appends the line of one row.
pub(crate) fn serialize_row(out: &mut String, b: &Block, row: &Row, widths: &Vec<usize>, align: bool)
    requires
        align ==> widths.len() == b.fields.len(),
        align ==> forall|i: int| 0 <= i < widths.len() ==> widths@[i] == col_width(b@, i),
    ensures
        final(out)@ == old(out)@ + row_line(b@, row@, align),
{
    let ghost cells = row_cells(b@, row@, align);
    let ghost base = out@;
    let n = b.fields.len();
    let mut i: usize = 0;
    proof {
        assert(cells.take(0) =~= Seq::<Seq<char>>::empty());
        assert(out@ =~= base + join(cells.take(0), seq![' ']));
    }
    while i < n
        invariant
            i <= n == b.fields.len(),
            cells == row_cells(b@, row@, align),
            align ==> widths.len() == b.fields.len(),
            align ==> forall|i: int| 0 <= i < widths.len() ==> widths@[i] == col_width(b@, i),
            out@ == base + join(cells.take(i as int), seq![' ']),
        decreases n - i,
    {
        let f = b.fields[i].as_str();
        let mut cell = String::new();
        match row.get(f) {
            Some(v) => serialize_value(&mut cell, v),
            None => push_str(&mut cell, "null"),
        }
        proof {
            assert(b@.fields[i as int] == f@);
            assert(cell@ =~= cell_text(row@, b@.fields[i as int]));
        }
        if align && i + 1 < n {
            let w = widths[i];
            let len = chars_of(cell.as_str()).len();
            let mut k: usize = len;
            let ghost t = cell@;
            while k < w
                invariant
                    len <= k,
                    len == t.len(),
                    k < w ==> cell@ == t + Seq::new((k - len) as nat, |j: int| ' '),
                    k >= w ==> cell@ == pad(t, w as int),
                    k == len ==> cell@ == t,
                decreases w - k,
            {
                push_char(&mut cell, ' ');
                k += 1;
                proof {
                    assert(cell@ =~= t + Seq::new((k - len) as nat, |j: int| ' '));
                }
            }
            proof {
                if len >= w {
                    assert(cell@ == pad(t, w as int));
                }
            }
        }
        proof {
            assert(cell@ == cells[i as int]);
            lemma_join_push(cells.take(i as int), seq![' '], cell@);
            assert(cells.take(i + 1) =~= cells.take(i as int).push(cell@));
        }
        if i > 0 {
            push_char(out, ' ');
        }
        out.append(cell.as_str());
        i += 1;
        proof {
            assert(out@ =~= base + join(cells.take(i as int), seq![' ']));
        }
    }
    proof {
        assert(cells.take(n as int) =~= cells);
    }
}

/// Appends the field definition line.
pub(crate) fn serialize_fields(out: &mut String, b: &Block)
    ensures
        final(out)@ == old(out)@ + fields_line(b@),
{
    let ghost defs = b@.field_info.map_values(|f: FieldInfoV| def_text(f));
    let ghost base = out@;
    let mut i: usize = 0;
    proof {
        assert(defs.take(0) =~= Seq::<Seq<char>>::empty());
        assert(out@ =~= base + join(defs.take(0), seq![' ']));
    }
    while i < b.field_info.len()
        invariant
            i <= b.field_info.len(),
            defs == b@.field_info.map_values(|f: FieldInfoV| def_text(f)),
            out@ == base + join(defs.take(i as int), seq![' ']),
        decreases b.field_info.len() - i,
    {
        let fi = &b.field_info[i];
        let mut d = String::new();
        d.append(fi.name.as_str());
        match &fi.field_type {
            Some(t) => {
                push_char(&mut d, ':');
                d.append(t.as_str());
            },
            None => {},
        }
        proof {
            assert(b@.field_info[i as int] == fi@);
            assert(d@ =~= defs[i as int]);
            lemma_join_push(defs.take(i as int), seq![' '], d@);
            assert(defs.take(i + 1) =~= defs.take(i as int).push(d@));
        }
        if i > 0 {
            push_char(out, ' ');
        }
        out.append(d.as_str());
        i += 1;
        proof {
            assert(out@ =~= base + join(defs.take(i as int), seq![' ']));
        }
    }
    proof {
        assert(defs.take(i as int) =~= defs);
    }
}

/// Appends a block as ISON text (see `block_text`).
pub fn serialize_block(out: &mut String, b: &Block, align: bool)
    ensures
        final(out)@ == old(out)@ + block_text(b@, align),
{
    let ghost lines = block_lines(b@, align);
    let ghost base = out@;
    let widths = if align {
        calculate_widths(b)
    } else {
        Vec::new()
    };
    out.append(b.kind.as_str());
    push_char(out, '.');
    out.append(b.name.as_str());
    proof {
        assert(lines.take(1) =~= seq![lines[0]]);
        assert(out@ =~= base + join(lines.take(1), seq!['\n']));
        lemma_join_push(lines.take(1), seq!['\n'], fields_line(b@));
        assert(lines.take(2) =~= lines.take(1).push(fields_line(b@)));
    }
    push_char(out, '\n');
    serialize_fields(out, b);
    proof {
        assert(out@ =~= base + join(lines.take(2), seq!['\n']));
    }
    let mut j: usize = 0;
    while j < b.rows.len()
        invariant
            j <= b.rows.len(),
            lines == block_lines(b@, align),
            align ==> widths.len() == b.fields.len(),
            align ==> forall|i: int| 0 <= i < widths.len() ==> widths@[i] == col_width(b@, i),
            out@ == base + join(lines.take(2 + j), seq!['\n']),
        decreases b.rows.len() - j,
    {
        push_char(out, '\n');
        serialize_row(out, b, &b.rows[j], &widths, align);
        proof {
            assert(lines[2 + j] == row_line(b@, b@.rows[j as int], align));
            lemma_join_push(lines.take(2 + j), seq!['\n'], lines[2 + j]);
            assert(lines.take(2 + j + 1) =~= lines.take(2 + j).push(lines[2 + j]));
            assert(out@ =~= base + join(lines.take(2 + j + 1), seq!['\n']));
        }
        j += 1;
    }
    if b.summary_rows.len() > 0 {
        let ghost m = 2 + b.rows.len();
        push_char(out, '\n');
        push_str(out, "---");
        proof {
            assert(lines[m] == "---"@);
            lemma_join_push(lines.take(m), seq!['\n'], lines[m]);
            assert(lines.take(m + 1) =~= lines.take(m).push(lines[m]));
            assert(out@ =~= base + join(lines.take(m + 1), seq!['\n']));
        }
        let mut j: usize = 0;
        while j < b.summary_rows.len()
            invariant
                j <= b.summary_rows.len(),
                m == 2 + b.rows.len(),
                lines == block_lines(b@, align),
                align ==> widths.len() == b.fields.len(),
                align ==> forall|i: int| 0 <= i < widths.len() ==> widths@[i] == col_width(b@, i),
                out@ == base + join(lines.take(m + 1 + j), seq!['\n']),
            decreases b.summary_rows.len() - j,
        {
            push_char(out, '\n');
            serialize_row(out, b, &b.summary_rows[j], &widths, align);
            proof {
                let p = m + 1 + j;
                assert(lines[p] == row_line(b@, b@.summary_rows[j as int], align));
                lemma_join_push(lines.take(p), seq!['\n'], lines[p]);
                assert(lines.take(p + 1) =~= lines.take(p).push(lines[p]));
                assert(out@ =~= base + join(lines.take(p + 1), seq!['\n']));
            }
            j += 1;
        }
        proof {
            assert(lines.take(m + 1 + j) =~= lines);
        }
    } else {
        proof {
            assert(lines.take(2 + j) =~= lines);
        }
    }
}

/// The document as ISON text (see `document_text`).
pub fn dumps(doc: &Document, align_columns: bool) -> (r: String)
    ensures
        r@ == document_text(doc@, align_columns),
{
    let ghost texts = doc@.map_values(|b: BlockV| block_text(b, align_columns));
    let mut out = String::new();
    let mut i: usize = 0;
    proof {
        assert(texts.take(0) =~= Seq::<Seq<char>>::empty());
    }
    while i < doc.blocks.len()
        invariant
            i <= doc.blocks.len(),
            texts == doc@.map_values(|b: BlockV| block_text(b, align_columns)),
            out@ == join(texts.take(i as int), seq!['\n', '\n']),
        decreases doc.blocks.len() - i,
    {
        if i > 0 {
            push_char(&mut out, '\n');
            push_char(&mut out, '\n');
        }
        serialize_block(&mut out, &doc.blocks[i], align_columns);
        proof {
            assert(texts[i as int] == block_text(doc.blocks@[i as int]@, align_columns));
            lemma_join_push(texts.take(i as int), seq!['\n', '\n'], texts[i as int]);
            assert(texts.take(i + 1) =~= texts.take(i as int).push(texts[i as int]));
            assert(out@ =~= join(texts.take(i + 1), seq!['\n', '\n']));
        }
        i += 1;
    }
    proof {
        assert(texts.take(i as int) =~= texts);
    }
    out
}

} // verus!
