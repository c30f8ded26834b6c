//! ISONL: one record per line, `kind.name|field definitions|values`.
use vstd::prelude::*;
use crate::text::{chars_of, split, split_chars, trim, push_char, is_white_space, white_space};
use crate::tokenizer::{tokenize, tokenize_line};
use crate::model::{Block, BlockV, Document, FieldInfoV, ISONError, ValueV, blocks_view};
use crate::parser::{ErrorV, header_of, header_split, field_def, field_names, row_of, build_row, reference_error, parse_field_def, trimmed, lines_view, block_of, parse, parse_spec};
use crate::serializer::{fields_line, row_line, join, document_text, dumps, lemma_join_push};

verus! {

/// End of the run of non-white-space characters that starts at `i`.
pub open spec fn word_end(s: Seq<char>, i: int) -> int
    decreases s.len() - i,
{
    if i < 0 || i >= s.len() || is_white_space(s[i]) {
        i
    } else {
        word_end(s, i + 1)
    }
}

pub proof fn lemma_word_end_bounds(s: Seq<char>, i: int)
    requires
        0 <= i <= s.len(),
    ensures
        i <= word_end(s, i) <= s.len(),
        i < s.len() && !is_white_space(s[i]) ==> word_end(s, i) > i,
    decreases s.len() - i,
{
    if i < s.len() && !is_white_space(s[i]) {
        lemma_word_end_bounds(s, i + 1);
    }
}

/// The white-space separated words of `s` from position `i` on.
pub open spec fn words_from(s: Seq<char>, i: int) -> Seq<Seq<char>>
    decreases s.len() - i,
{
    if i < 0 || i >= s.len() {
        Seq::empty()
    } else if is_white_space(s[i]) {
        words_from(s, i + 1)
    } else {
        let j = word_end(s, i);
        proof {
            lemma_word_end_bounds(s, i);
        }
        seq![s.subrange(i, j)] + words_from(s, j)
    }
}

pub open spec fn words(s: Seq<char>) -> Seq<Seq<char>> {
    words_from(s, 0)
}

/// Position of the first block with this kind and name.
pub open spec fn block_index(bs: Seq<BlockV>, kind: Seq<char>, name: Seq<char>) -> Option<int> {
    if exists|i: int| 0 <= i < bs.len() && (#[trigger] bs[i]).kind == kind && bs[i].name == name {
        Some(choose|i: int| 0 <= i < bs.len() && (#[trigger] bs[i]).kind == kind && bs[i].name == name && forall|k: int| 0 <= k < i ==> !((#[trigger] bs[k]).kind == kind && bs[k].name == name))
    } else {
        None
    }
}

pub open spec fn isonl_line_error(l: Seq<char>, line: int) -> ErrorV {
    ErrorV { message: "Invalid ISONL line: "@ + l, line: Some(line) }
}

pub open spec fn isonl_header_error(h: Seq<char>, line: int) -> ErrorV {
    ErrorV { message: "Invalid ISONL header: "@ + h, line: Some(line) }
}

/// The blocks after reading one non-blank ISONL line `l` (line number
/// `line`) with `acc` read before it. The first line of a block declares
/// its fields; each line adds one row.
pub open spec fn isonl_record(l: Seq<char>, line: int, acc: Seq<BlockV>) -> Result<Seq<BlockV>, ErrorV> {
    let parts = split(l, '|');
    if parts.len() != 3 {
        Err(isonl_line_error(l, line))
    } else {
        match header_of(parts[0]) {
            None => Err(isonl_header_error(parts[0], line)),
            Some(kn) => {
                let idx = block_index(acc, kn.0, kn.1);
                let b = match idx {
                    Some(i) => acc[i],
                    None => block_of(
                        kn.0,
                        kn.1,
                        words(parts[1]).map_values(|w: Seq<char>| field_def(w)),
                        Seq::empty(),
                        Seq::empty(),
                    ),
                };
                let toks = tokenize(parts[2]);
                match row_of(b.fields, toks) {
                    Ok(r) => {
                        let b2 = BlockV { rows: b.rows.push(r), ..b };
                        Ok(match idx {
                            Some(i) => acc.update(i, b2),
                            None => acc.push(b2),
                        })
                    },
                    Err(j) => Err(reference_error(toks[j].0, line)),
                }
            },
        }
    }
}

/// The blocks read from the ISONL lines from `n` on, given those read so
/// far; blank and comment lines are skipped.
pub open spec fn isonl_from(ls: Seq<Seq<char>>, n: int, acc: Seq<BlockV>) -> Result<Seq<BlockV>, ErrorV>
    decreases ls.len() - n,
{
    if n < 0 || n >= ls.len() {
        Ok(acc)
    } else {
        let l = trim(ls[n]);
        if l.len() == 0 || l[0] == '#' {
            isonl_from(ls, n + 1, acc)
        } else {
            match isonl_record(l, n + 1, acc) {
                Ok(next) => isonl_from(ls, n + 1, next),
                Err(e) => Err(e),
            }
        }
    }
}

/// The document that ISONL text denotes, or the first error in it.
pub open spec fn parse_isonl_spec(text: Seq<char>) -> Result<Seq<BlockV>, ErrorV> {
    isonl_from(split(text, '\n'), 0, Seq::empty())
}

/// The ISONL line of one row of a block.
pub open spec fn isonl_line(b: BlockV, r: Map<Seq<char>, ValueV>) -> Seq<char> {
    b.kind + seq!['.'] + b.name + seq!['|'] + fields_line(b) + seq!['|'] + row_line(b, r, false)
}

pub open spec fn block_isonl_lines(b: BlockV) -> Seq<Seq<char>> {
    b.rows.map_values(|r: Map<Seq<char>, ValueV>| isonl_line(b, r))
}

/// The ISONL lines of the data rows of all blocks, in order.
pub open spec fn isonl_lines(d: Seq<BlockV>) -> Seq<Seq<char>>
    decreases d.len(),
{
    if d.len() == 0 {
        Seq::empty()
    } else {
        isonl_lines(d.drop_last()) + block_isonl_lines(d.last())
    }
}

pub open spec fn document_isonl(d: Seq<BlockV>) -> Seq<char> {
    join(isonl_lines(d), seq!['\n'])
}

/// The words of `c` (see `words`).
fn split_words(c: &Vec<char>) -> (r: Vec<Vec<char>>)
    ensures
        lines_view(r@) == words(c@),
{
    let mut out: Vec<Vec<char>> = Vec::new();
    let mut i: usize = 0;
    proof {
        assert(lines_view(out@) + words_from(c@, 0) =~= words_from(c@, 0));
    }
    while i < c.len()
        invariant
            i <= c.len(),
            lines_view(out@) + words_from(c@, i as int) == words(c@),
        decreases c.len() - i,
    {
        if white_space(c[i]) {
            i += 1;
        } else {
            let start = i;
            while i < c.len() && !white_space(c[i])
                invariant
                    start <= i <= c.len(),
                    word_end(c@, start as int) == word_end(c@, i as int),
                decreases c.len() - i,
            {
                i += 1;
            }
            let mut w: Vec<char> = Vec::new();
            let mut k: usize = start;
            while k < i
                invariant
                    start <= k <= i <= c.len(),
                    w@ == c@.subrange(start as int, k as int),
                decreases i - k,
            {
                w.push(c[k]);
                k += 1;
                proof {
                    assert(w@ =~= c@.subrange(start as int, k as int));
                }
            }
            let ghost before = lines_view(out@);
            out.push(w);
            proof {
                assert(lines_view(out@) =~= before.push(c@.subrange(start as int, i as int)));
                assert(before + words_from(c@, start as int) =~= lines_view(out@) + words_from(
                    c@,
                    i as int,
                ));
            }
        }
    }
    proof {
        assert(lines_view(out@) + words_from(c@, i as int) =~= lines_view(out@));
    }
    out
}

/// Position of the first block with this kind and name.
fn find_block(blocks: &Vec<Block>, kind: &String, name: &String) -> (r: Option<usize>)
    ensures
        match r {
            Some(i) => block_index(blocks_view(blocks@), kind@, name@) == Some(i as int) && i
                < blocks.len(),
            None => block_index(blocks_view(blocks@), kind@, name@) is None,
        },
{
    let ghost bs = blocks_view(blocks@);
    let mut i: usize = 0;
    while i < blocks.len()
        invariant
            i <= blocks.len(),
            bs == blocks_view(blocks@),
            forall|k: int| 0 <= k < i ==> !((#[trigger] bs[k]).kind == kind@ && bs[k].name == name@),
        decreases blocks.len() - i,
    {
        if blocks[i].kind == *kind && blocks[i].name == *name {
            proof {
                assert(bs[i as int].kind == kind@ && bs[i as int].name == name@);
                let j = block_index(bs, kind@, name@)->0;
                assert(0 <= j < bs.len() && bs[j].kind == kind@ && bs[j].name == name@ && forall|k: int| 0 <= k < j ==> !((#[trigger] bs[k]).kind == kind@ && bs[k].name == name@));
                assert(j == i);
            }
            return Some(i);
        }
        proof {
            assert(bs[i as int] == blocks@[i as int]@);
        }
        i += 1;
    }
    None
}

} // verus!

verus! {

/// Declares the fields named by `ws` in `block`.
fn declare_words(block: &mut Block, ws: &Vec<Vec<char>>)
    requires
        old(block)@.fields.len() == 0,
        old(block)@.field_info.len() == 0,
    ensures
        final(block)@ == (BlockV {
            fields: field_names(lines_view(ws@).map_values(|w: Seq<char>| field_def(w))),
            field_info: lines_view(ws@).map_values(|w: Seq<char>| field_def(w)),
            ..old(block)@
        }),
{
    let ghost defs = lines_view(ws@).map_values(|w: Seq<char>| field_def(w));
    let mut i: usize = 0;
    proof {
        assert(defs.take(0) =~= Seq::<FieldInfoV>::empty());
        assert(field_names(defs.take(0)) =~= Seq::<Seq<char>>::empty());
        assert(block@.fields =~= field_names(defs.take(0)));
        assert(block@.field_info =~= defs.take(0));
    }
    while i < ws.len()
        invariant
            i <= ws.len(),
            defs == lines_view(ws@).map_values(|w: Seq<char>| field_def(w)),
            block@ == (BlockV {
                fields: field_names(defs.take(i as int)),
                field_info: defs.take(i as int),
                ..old(block)@
            }),
        decreases ws.len() - i,
    {
        let info = parse_field_def(&ws[i]);
        let name = info.name.clone();
        let ghost nv = name@;
        let ghost iv = info@;
        let ghost prev = block@.fields;
        block.fields.push(name);
        block.field_info.push(info);
        i += 1;
        proof {
            assert(iv == defs[i - 1]);
            assert(nv == defs[i - 1].name);
            assert(block@.fields =~= prev.push(nv));
            assert(field_names(defs.take(i as int)) =~= field_names(defs.take(i - 1)).push(nv));
            assert(block@.field_info =~= defs.take(i as int));
        }
    }
    proof {
        assert(defs.take(i as int) =~= defs);
    }
}

/// Reads one non-blank ISONL line into `blocks` (see `isonl_record`).
fn read_record(blocks: &mut Vec<Block>, l: &Vec<char>, line: usize) -> (r: Result<(), ISONError>)
    ensures
        match isonl_record(l@, line as int, blocks_view(old(blocks)@)) {
            Ok(next) => r is Ok && blocks_view(final(blocks)@) == next,
            Err(e) => r is Err && r->Err_0@ == e,
        },
{
    let parts = split_chars(l, '|');
    if parts.len() != 3 {
        return Err(crate::parser::error_at("Invalid ISONL line: ", l, line));
    }
    proof {
        assert(lines_view(parts@)[0] == parts@[0]@);
        assert(lines_view(parts@)[1] == parts@[1]@);
        assert(lines_view(parts@)[2] == parts@[2]@);
    }
    let (kind, name) = match header_split(&parts[0]) {
        Some(kn) => kn,
        None => {
            return Err(crate::parser::error_at("Invalid ISONL header: ", &parts[0], line));
        },
    };
    let toks = tokenize_line(&parts[2]);
    let ghost bs = blocks_view(blocks@);
    match find_block(&*blocks, &kind, &name) {
        Some(i) => {
            let row = match build_row(&blocks[i].fields, &toks) {
                Ok(row) => row,
                Err(t) => {
                    let tc = chars_of(toks[t].text.as_str());
                    return Err(crate::parser::error_at("Invalid reference: ", &tc, line));
                },
            };
            let ghost rv = row@;
            let mut b = blocks.remove(i);
            proof {
                assert(b@ == bs[i as int]);
            }
            b.rows.push(row);
            proof {
                assert(b@.rows =~= bs[i as int].rows.push(rv));
                assert(b@ == BlockV { rows: bs[i as int].rows.push(rv), ..bs[i as int] });
            }
            blocks.insert(i, b);
            proof {
                assert(blocks_view(blocks@) =~= bs.update(
                    i as int,
                    BlockV { rows: bs[i as int].rows.push(rv), ..bs[i as int] },
                ));
            }
        },
        None => {
            let ws = split_words(&parts[1]);
            let mut b = Block::from_header(kind, name);
            declare_words(&mut b, &ws);
            let row = match build_row(&b.fields, &toks) {
                Ok(row) => row,
                Err(t) => {
                    let tc = chars_of(toks[t].text.as_str());
                    return Err(crate::parser::error_at("Invalid reference: ", &tc, line));
                },
            };
            let ghost rv = row@;
            let ghost b0 = b@;
            b.rows.push(row);
            proof {
                assert(b0.rows =~= Seq::empty());
                assert(b0.summary_rows =~= Seq::empty());
                assert(b@.rows =~= b0.rows.push(rv));
            }
            blocks.push(b);
            proof {
                assert(blocks_view(blocks@) =~= bs.push(BlockV { rows: b0.rows.push(rv), ..b0 }));
            }
        },
    }
    Ok(())
}

/// Parses ISONL text into a document (see `parse_isonl_spec`).
pub fn parse_isonl(text: &str) -> (r: Result<Document, ISONError>)
    ensures
        match parse_isonl_spec(text@) {
            Ok(d) => r is Ok && r->Ok_0@ == d,
            Err(e) => r is Err && r->Err_0@ == e,
        },
{
    let c = chars_of(text);
    let ls = split_chars(&c, '\n');
    let ghost lv = lines_view(ls@);
    let mut blocks: Vec<Block> = Vec::new();
    let mut n: usize = 0;
    proof {
        assert(blocks_view(blocks@) =~= Seq::<BlockV>::empty());
    }
    while n < ls.len()
        invariant
            n <= ls.len(),
            lv == lines_view(ls@),
            lv == split(text@, '\n'),
            isonl_from(lv, n as int, blocks_view(blocks@)) == parse_isonl_spec(text@),
        decreases ls.len() - n,
    {
        proof {
            assert(lv[n as int] == ls@[n as int]@);
        }
        let l = trimmed(&ls[n]);
        if l.len() == 0 || l[0] == '#' {
            n += 1;
            continue;
        }
        read_record(&mut blocks, &l, n + 1)?;
        n += 1;
    }
    Ok(Document { blocks })
}

/// The data rows of a document as ISONL text (see `document_isonl`).
pub fn dumps_isonl(doc: &Document) -> (r: String)
    ensures
        r@ == document_isonl(doc@),
{
    let ghost d = doc@;
    let mut out = String::new();
    let empty: Vec<usize> = Vec::new();
    let mut emitted = false;
    let mut i: usize = 0;
    proof {
        assert(d.take(0) =~= Seq::<BlockV>::empty());
    }
    while i < doc.blocks.len()
        invariant
            i <= doc.blocks.len(),
            d == doc@,
            out@ == join(isonl_lines(d.take(i as int)), seq!['\n']),
            emitted == (isonl_lines(d.take(i as int)).len() > 0),
        decreases doc.blocks.len() - i,
    {
        let b = &doc.blocks[i];
        let ghost bl = block_isonl_lines(b@);
        let ghost prior = isonl_lines(d.take(i as int));
        let mut j: usize = 0;
        proof {
            assert(prior + bl.take(0) =~= prior);
        }
        while j < b.rows.len()
            invariant
                j <= b.rows.len(),
                bl == block_isonl_lines(b@),
                out@ == join(prior + bl.take(j as int), seq!['\n']),
                emitted == ((prior + bl.take(j as int)).len() > 0),
            decreases b.rows.len() - j,
        {
            let mut line = String::new();
            line.append(b.kind.as_str());
            push_char(&mut line, '.');
            line.append(b.name.as_str());
            push_char(&mut line, '|');
            crate::serializer::serialize_fields(&mut line, b);
            push_char(&mut line, '|');
            crate::serializer::serialize_row(&mut line, b, &b.rows[j], &empty, false);
            proof {
                assert(line@ =~= bl[j as int]);
                lemma_join_push(prior + bl.take(j as int), seq!['\n'], line@);
                assert(prior + bl.take(j + 1) =~= (prior + bl.take(j as int)).push(line@));
            }
            if emitted {
                push_char(&mut out, '\n');
            }
            out.append(line.as_str());
            emitted = true;
            j += 1;
            proof {
                assert(out@ =~= join(prior + bl.take(j as int), seq!['\n']));
            }
        }
        proof {
            assert(d.take(i + 1).drop_last() =~= d.take(i as int));
            assert(bl.take(j as int) =~= bl);
        }
        i += 1;
    }
    proof {
        assert(d.take(i as int) =~= d);
    }
    out
}

/// Alias of `parse`.
pub fn loads(text: &str) -> (r: Result<Document, ISONError>)
    ensures
        match parse_spec(text@) {
            Ok(d) => r is Ok && r->Ok_0@ == d,
            Err(e) => r is Err && r->Err_0@ == e,
        },
{
    parse(text)
}

/// Alias of `parse_isonl`.
pub fn loads_isonl(text: &str) -> (r: Result<Document, ISONError>)
    ensures
        match parse_isonl_spec(text@) {
            Ok(d) => r is Ok && r->Ok_0@ == d,
            Err(e) => r is Err && r->Err_0@ == e,
        },
{
    parse_isonl(text)
}

/// Converts ISON text to ISONL text.
pub fn ison_to_isonl(ison_text: &str) -> (r: Result<String, ISONError>)
    ensures
        match parse_spec(ison_text@) {
            Ok(d) => r is Ok && r->Ok_0@ == document_isonl(d),
            Err(e) => r is Err && r->Err_0@ == e,
        },
{
    let doc = parse(ison_text)?;
    Ok(dumps_isonl(&doc))
}

/// Converts ISONL text to aligned ISON text.
pub fn isonl_to_ison(isonl_text: &str) -> (r: Result<String, ISONError>)
    ensures
        match parse_isonl_spec(isonl_text@) {
            Ok(d) => r is Ok && r->Ok_0@ == document_text(d, true),
            Err(e) => r is Err && r->Err_0@ == e,
        },
{
    let doc = parse_isonl(isonl_text)?;
    Ok(dumps(&doc, true))
}

} // verus!
