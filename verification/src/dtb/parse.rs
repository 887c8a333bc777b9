//! The one-pass compiler: each node and property is written into the memory
//! map as soon as its line is read; cells may name labels whose values were
//! recorded from the `#address-cells` property of a labelled node.
use vstd::prelude::*;

use crate::bytes::{
    copy_range, find_byte, find_from, join_spaced, join_tokens, pack_be_words, pack_words,
    split_bytes, split_on, split_tokens, tokens_of, trim_end_byte, trim_end_matches,
    trim_start_byte, trim_start_matches, views,
};
use crate::generate::{
    can_regist_string, spec_mmap_regist_label, spec_write_nodekind, spec_write_nodename,
    spec_write_property, DtbMmap, MmapView,
};
use crate::number::{
    digits_value, is_decimal, is_hexadecimal, lemma_decimal_reads_in_base_ten,
    lemma_hexadecimal_reads_in_base_sixteen, parse_dec, parse_hex, parse_u32_radix,
};
use crate::parser::{is_end_of_node, is_single, end_of_node, equals_sign, open_brace, DtsError, FdtTokenKind};

verus! {

/// `#address-cells`
pub open spec fn address_cells() -> Seq<u8> {
    seq![35u8, 97, 100, 100, 114, 101, 115, 115, 45, 99, 101, 108, 108, 115]
}

/// One cell of a `<..>` list: a hexadecimal number after `0x`, a decimal
/// number, or the recorded value of the label that the piece names (leading
/// `&` dropped).
pub open spec fn spec_dtb_cell(p: Seq<u8>, labels: Map<Seq<u8>, u32>) -> Result<u32, DtsError> {
    if p.len() >= 2 && p[0] == 48 && p[1] == 120 {
        match parse_hex(p.subrange(2, p.len() as int)) {
            Some(v) => Ok(v),
            None => Err(DtsError::HexParse),
        }
    } else {
        match parse_dec(p) {
            Some(v) => Ok(v),
            None => {
                let l = trim_start_byte(p, 38);
                if labels.contains_key(l) {
                    Ok(labels[l])
                } else {
                    Err(DtsError::LabelReference)
                }
            },
        }
    }
}

/// The cells of the pieces, left to right; the first failing piece decides the error.
pub open spec fn spec_dtb_cells(ps: Seq<Seq<u8>>, labels: Map<Seq<u8>, u32>) -> Result<
    Seq<u32>,
    DtsError,
>
    decreases ps.len(),
{
    if ps.len() == 0 {
        Ok(Seq::empty())
    } else {
        match spec_dtb_cells(ps.drop_last(), labels) {
            Err(e) => Err(e),
            Ok(cs) => match spec_dtb_cell(ps.last(), labels) {
                Err(e) => Err(e),
                Ok(c) => Ok(cs.push(c)),
            },
        }
    }
}

/// What follows index `e` of `d`.
pub open spec fn rest_after(d: Seq<u8>, e: int) -> Seq<u8> {
    if e < d.len() {
        d.subrange(e + 1, d.len() as int)
    } else {
        Seq::empty()
    }
}

pub open spec fn ends_with_semicolon(r: Seq<u8>) -> bool {
    r.len() > 0 && r.last() == 59
}

/// The cells of property data and their size in bytes: a string with its NUL
/// packed into cells, or a `<..>` list of cells; what follows the closing
/// quote or `>` must end with `;`.
pub open spec fn spec_dtb_parse_data(d: Seq<u8>, labels: Map<Seq<u8>, u32>) -> Result<
    (Seq<u32>, u32),
    DtsError,
> {
    if d.len() == 0 {
        Err(DtsError::EmptyData)
    } else if d[0] == 34 {
        let e = find_from(d, 1, 34);
        let text = d.subrange(1, e).push(0u8);
        if !ends_with_semicolon(rest_after(d, e)) {
            Err(DtsError::SemicolonExpected)
        } else {
            Ok((pack_words(text), text.len() as u32))
        }
    } else if d[0] == 60 {
        let e = find_from(d, 1, 62);
        match spec_dtb_cells(split_on(d.subrange(1, e), 32), labels) {
            Err(err) => Err(err),
            Ok(cs) => if (cs.len() as u32) * 4 > u32::MAX {
                Err(DtsError::SizeOverflow)
            } else if !ends_with_semicolon(rest_after(d, e)) {
                Err(DtsError::SemicolonExpected)
            } else {
                Ok((cs, ((cs.len() as u32) * 4) as u32))
            },
        }
    } else {
        Err(DtsError::InvalidData)
    }
}

fn dtb_cell(p: &[u8], mmap: &DtbMmap) -> (r: Result<u32, DtsError>)
    requires
        mmap.wf(),
    ensures
        r == spec_dtb_cell(p@, mmap@.labels),
{
    if p.len() >= 2 && p[0] == 48 && p[1] == 120 {
        let hex = copy_range(p, 2, p.len());
        match parse_u32_radix(hex.as_slice(), 16) {
            Some(v) => Ok(v),
            None => Err(DtsError::HexParse),
        }
    } else {
        match parse_u32_radix(p, 10) {
            Some(v) => Ok(v),
            None => {
                let l = trim_start_matches(p, 38);
                match mmap.label_value(l.as_slice()) {
                    Some(v) => Ok(v),
                    None => Err(DtsError::LabelReference),
                }
            },
        }
    }
}

proof fn lemma_dtb_cells_error_extends(
    ps: Seq<Seq<u8>>,
    j: int,
    m: int,
    labels: Map<Seq<u8>, u32>,
)
    requires
        0 <= j <= m <= ps.len(),
        spec_dtb_cells(ps.subrange(0, j), labels) is Err,
    ensures
        spec_dtb_cells(ps.subrange(0, m), labels) == spec_dtb_cells(ps.subrange(0, j), labels),
    decreases m - j,
{
    if m > j {
        lemma_dtb_cells_error_extends(ps, j, m - 1, labels);
        assert(ps.subrange(0, m).drop_last() =~= ps.subrange(0, m - 1));
    }
}

proof fn lemma_dtb_cells_len(ps: Seq<Seq<u8>>, labels: Map<Seq<u8>, u32>)
    ensures
        spec_dtb_cells(ps, labels) matches Ok(cs) ==> cs.len() == ps.len(),
    decreases ps.len(),
{
    if ps.len() > 0 {
        lemma_dtb_cells_len(ps.drop_last(), labels);
    }
}

proof fn lemma_split_from_nonempty(s: Seq<u8>, i: int, b: u8)
    requires
        0 <= i <= s.len(),
    ensures
        crate::bytes::split_from(s, i, b).len() >= 1,
{
    crate::bytes::lemma_find_from(s, i, b);
}

/// Data that reads successfully has at least one cell.
pub proof fn lemma_dtb_data_nonempty(d: Seq<u8>, labels: Map<Seq<u8>, u32>)
    ensures
        spec_dtb_parse_data(d, labels) matches Ok((cs, size)) ==> cs.len() >= 1,
{
    if d.len() > 0 && d[0] == 60 {
        let e = find_from(d, 1, 62);
        crate::bytes::lemma_find_from(d, 1, 62);
        let inner = d.subrange(1, e);
        lemma_split_from_nonempty(inner, 0, 32);
        lemma_dtb_cells_len(split_on(inner, 32), labels);
    }
}

fn dtb_cells(inner: &[u8], mmap: &DtbMmap) -> (r: Result<Vec<u32>, DtsError>)
    requires
        mmap.wf(),
    ensures
        match r {
            Ok(cs) => spec_dtb_cells(split_on(inner@, 32), mmap@.labels) == Ok::<
                Seq<u32>,
                DtsError,
            >(cs@),
            Err(e) => spec_dtb_cells(split_on(inner@, 32), mmap@.labels) == Err::<
                Seq<u32>,
                DtsError,
            >(e),
        },
{
    let pieces = split_bytes(inner, 32);
    let ghost ps = views(pieces@);
    let mut cells: Vec<u32> = Vec::new();
    let mut k: usize = 0;
    assert(ps.subrange(0, 0) =~= Seq::<Seq<u8>>::empty());
    while k < pieces.len()
        invariant
            k <= pieces@.len(),
            ps == views(pieces@),
            ps == split_on(inner@, 32),
            mmap.wf(),
            spec_dtb_cells(ps.subrange(0, k as int), mmap@.labels) == Ok::<Seq<u32>, DtsError>(
                cells@,
            ),
        decreases pieces.len() - k,
    {
        let ghost pre1 = ps.subrange(0, k + 1);
        assert(pre1.drop_last() =~= ps.subrange(0, k as int));
        assert(pre1.last() == pieces@[k as int]@);
        match dtb_cell(pieces[k].as_slice(), mmap) {
            Ok(v) => {
                cells.push(v);
            },
            Err(e) => {
                proof {
                    lemma_dtb_cells_error_extends(ps, k + 1, ps.len() as int, mmap@.labels);
                    assert(ps.subrange(0, ps.len() as int) =~= ps);
                }
                return Err(e);
            },
        }
        k = k + 1;
    }
    assert(ps.subrange(0, k as int) =~= ps);
    Ok(cells)
}

/// Reads property data into cells and their size in bytes.
pub fn parse_data(data: &[u8], mmap: &DtbMmap) -> (r: Result<(Vec<u32>, u32), DtsError>)
    requires
        mmap.wf(),
    ensures
        match r {
            Ok((cs, size)) => spec_dtb_parse_data(data@, mmap@.labels) == Ok::<
                (Seq<u32>, u32),
                DtsError,
            >((cs@, size)),
            Err(e) => spec_dtb_parse_data(data@, mmap@.labels) == Err::<(Seq<u32>, u32), DtsError>(
                e,
            ),
        },
{
    if data.len() == 0 {
        return Err(DtsError::EmptyData);
    }
    let n = data.len();
    if data[0] == 34 {
        let e = find_byte(data, 1, 34);
        let mut text = copy_range(data, 1, e);
        text.push(0u8);
        let size = #[verifier::truncate] (text.len() as u32);
        let bin = pack_be_words(text.as_slice());
        if e >= n - 1 || data[n - 1] != 59 {
            return Err(DtsError::SemicolonExpected);
        }
        Ok((bin, size))
    } else if data[0] == 60 {
        let e = find_byte(data, 1, 62);
        let inner = copy_range(data, 1, e);
        match dtb_cells(inner.as_slice(), mmap) {
            Err(err) => Err(err),
            Ok(cs) => {
                let count = #[verifier::truncate] (cs.len() as u32);
                if count > 0x3fff_ffff {
                    return Err(DtsError::SizeOverflow);
                }
                if e >= n - 1 || data[n - 1] != 59 {
                    return Err(DtsError::SemicolonExpected);
                }
                Ok((cs, count * 4))
            },
        }
    } else {
        Err(DtsError::InvalidData)
    }
}

/// The line after the property on line `p`, and the map after writing it:
/// once the name is read, a `Prop` token is written; then the property itself,
/// which `DtbMmap::write_property` opens with its own `Prop` token, so each
/// property stands behind two of them. `name = data;` writes the cells, and
/// when the name is `#address-cells` inside a labelled node, records its first
/// cell as the label's value; a line without `=` writes the property with no
/// data. An error leaves the map as it stands when the error is found.
pub open spec fn spec_dtb_parse_property(lines: Seq<Seq<u8>>, p: int, v: MmapView) -> Result<
    (int, MmapView),
    (DtsError, MmapView),
> {
    if p < 0 || p >= lines.len() {
        Err((DtsError::PropertyInvalid, v))
    } else {
        let toks = tokens_of(lines[p]);
        if toks.len() == 0 {
            Err((DtsError::PropNameNotFound, v))
        } else {
            let name = toks[0];
            let v0 = spec_write_nodekind(v, FdtTokenKind::Prop);
            if toks.len() >= 2 && toks[1] == equals_sign() {
                match spec_dtb_parse_data(join_spaced(toks.subrange(2, toks.len() as int)), v0.labels) {
                    Err(e) => Err((e, v0)),
                    Ok((data, size)) => if !can_regist_string(v0.strings, name) {
                        Err((DtsError::SizeOverflow, v0))
                    } else {
                        let v1 = spec_write_property(v0, name, data, size);
                        if name == address_cells() && v1.current_label is Some {
                            Ok((p + 1, spec_mmap_regist_label(v1, v1.current_label->0, data[0])))
                        } else {
                            Ok((p + 1, v1))
                        }
                    },
                }
            } else if !can_regist_string(v0.strings, name) {
                Err((DtsError::SizeOverflow, v0))
            } else {
                Ok((p + 1, spec_write_property(v0, name, Seq::empty(), 0)))
            }
        }
    }
}

/// The map after the header line of a node: the begin token and the name,
/// and the node's label (trailing colons dropped) as the current label. The
/// begin token is written before the name is looked for, and the name and
/// label before the `{`; an error leaves the map as it then stands.
pub open spec fn spec_dtb_node_header(toks: Seq<Seq<u8>>, v: MmapView) -> Result<
    MmapView,
    (DtsError, MmapView),
> {
    if toks.len() == 0 {
        Err((DtsError::NodeNameNotFound, v))
    } else {
        let v1 = spec_write_nodekind(v, FdtTokenKind::BeginNode);
        if toks.len() >= 2 && toks[1] == open_brace() {
            Ok(MmapView { current_label: None, ..spec_write_nodename(v1, toks[0]) })
        } else if toks.len() < 2 {
            Err((DtsError::NodeNameNotFound, v1))
        } else {
            let v2 = MmapView {
                current_label: Some(trim_end_byte(toks[0], 58)),
                ..spec_write_nodename(v1, toks[1])
            };
            if toks.len() < 3 || toks[2] != open_brace() {
                Err((DtsError::BraceExpected, v2))
            } else {
                Ok(v2)
            }
        }
    }
}

/// The node whose header is on line `p`: the line after its `};` and the map
/// after writing it.
pub open spec fn spec_dtb_parse_node(lines: Seq<Seq<u8>>, p: int, v: MmapView) -> Result<
    (int, MmapView),
    (DtsError, MmapView),
>
    decreases lines.len() - p, 0int,
{
    if p < 0 || p >= lines.len() {
        Err((DtsError::NodeInvalid, v))
    } else {
        match spec_dtb_node_header(tokens_of(lines[p]), v) {
            Err(e) => Err(e),
            Ok(v1) => spec_dtb_node_body(lines, p + 1, v1),
        }
    }
}

/// The body of a node from line `p`: a line is read, then a `};` line ends the
/// node with its end token.
pub open spec fn spec_dtb_node_body(lines: Seq<Seq<u8>>, p: int, v: MmapView) -> Result<
    (int, MmapView),
    (DtsError, MmapView),
>
    decreases lines.len() - p, 2int,
{
    match spec_dtb_parse_line(lines, p, v) {
        Err(e) => Err(e),
        Ok((q, v1)) => if q <= p || q > lines.len() {
            Err((DtsError::UnexpectedEof, v1))
        } else if q < lines.len() && lines[q] == end_of_node() {
            Ok((q + 1, spec_write_nodekind(v1, FdtTokenKind::EndNode)))
        } else {
            spec_dtb_node_body(lines, q, v1)
        },
    }
}

/// The line `p`: an empty line is skipped, a line ending with `{` starts a
/// node, any other line is a property.
pub open spec fn spec_dtb_parse_line(lines: Seq<Seq<u8>>, p: int, v: MmapView) -> Result<
    (int, MmapView),
    (DtsError, MmapView),
>
    decreases lines.len() - p, 1int,
{
    if p < 0 || p >= lines.len() {
        Err((DtsError::UnexpectedEof, v))
    } else if lines[p].len() == 0 {
        Ok((p + 1, v))
    } else if lines[p].last() == 123 {
        spec_dtb_parse_node(lines, p, v)
    } else {
        spec_dtb_parse_property(lines, p, v)
    }
}

fn is_address_cells(t: &[u8]) -> (r: bool)
    ensures
        r == (t@ == address_cells()),
{
    let tag: [u8; 14] = [35, 97, 100, 100, 114, 101, 115, 115, 45, 99, 101, 108, 108, 115];
    assert(tag@ =~= address_cells());
    crate::bytes::bytes_eq(t, tag.as_slice())
}

/// Compiles the property on line `pos` into the map.
pub fn parse_property(lines: &Vec<Vec<u8>>, pos: usize, mmap: &mut DtbMmap) -> (r: Result<
    usize,
    DtsError,
>)
    requires
        old(mmap).wf(),
    ensures
        final(mmap).wf(),
        match r {
            Ok(q) => spec_dtb_parse_property(views(lines@), pos as int, old(mmap)@) == Ok::<(int, MmapView), (DtsError, MmapView)>((q as int, final(mmap)@)) && pos < q <= lines@.len(),
            Err(e) => spec_dtb_parse_property(views(lines@), pos as int, old(mmap)@) == Err::<(int, MmapView), (DtsError, MmapView)>((e, final(mmap)@)),
        },
{
    if pos >= lines.len() {
        return Err(DtsError::PropertyInvalid);
    }
    let toks = split_tokens(lines[pos].as_slice());
    assert(views(lines@)[pos as int] == lines@[pos as int]@);
    let ghost tv = views(toks@);
    if toks.len() == 0 {
        return Err(DtsError::PropNameNotFound);
    }
    let name = toks[0].as_slice();
    assert(tv[0] == name@);
    mmap.write_nodekind(FdtTokenKind::Prop);
    if toks.len() >= 2 && is_single(toks[1].as_slice(), 61) {
        assert(tv[1] == toks@[1]@);
        let raw = join_tokens(&toks, 2);
        assert(tv.subrange(2, toks@.len() as int) == tv.subrange(2, tv.len() as int));
        match parse_data(raw.as_slice(), mmap) {
            Err(e) => Err(e),
            Ok((data, size)) => {
                if !mmap.can_regist_string(name) {
                    return Err(DtsError::SizeOverflow);
                }
                proof {
                    lemma_dtb_data_nonempty(raw@, old(mmap)@.labels);
                }
                mmap.write_property(name, data.as_slice(), size);
                if is_address_cells(name) {
                    match &mmap.current_label {
                        Some(l) => {
                            let label = crate::bytes::copy_bytes(l.as_slice());
                            mmap.regist_label(label, data[0]);
                        },
                        None => {},
                    }
                }
                Ok(pos + 1)
            },
        }
    } else {
        proof {
            if toks.len() >= 2 {
                assert(tv[1] == toks@[1]@);
            }
        }
        if !mmap.can_regist_string(name) {
            return Err(DtsError::SizeOverflow);
        }
        let empty: Vec<u32> = Vec::new();
        assert(empty@ =~= Seq::<u32>::empty());
        mmap.write_property(name, empty.as_slice(), 0);
        Ok(pos + 1)
    }
}

/// Compiles the node whose header is on line `pos`, up to and including its `};`.
pub fn parse_node(lines: &Vec<Vec<u8>>, pos: usize, mmap: &mut DtbMmap) -> (r: Result<
    usize,
    DtsError,
>)
    requires
        old(mmap).wf(),
    ensures
        final(mmap).wf(),
        match r {
            Ok(q) => spec_dtb_parse_node(views(lines@), pos as int, old(mmap)@) == Ok::<(int, MmapView), (DtsError, MmapView)>((q as int, final(mmap)@)) && pos < q <= lines@.len(),
            Err(e) => spec_dtb_parse_node(views(lines@), pos as int, old(mmap)@) == Err::<(int, MmapView), (DtsError, MmapView)>((e, final(mmap)@)),
        },
    decreases lines@.len() - pos, 0int,
{
    let ghost ls = views(lines@);
    if pos >= lines.len() {
        return Err(DtsError::NodeInvalid);
    }
    let toks = split_tokens(lines[pos].as_slice());
    assert(ls[pos as int] == lines@[pos as int]@);
    let ghost tv = views(toks@);
    if toks.len() == 0 {
        return Err(DtsError::NodeNameNotFound);
    }
    assert(tv[0] == toks@[0]@);
    mmap.write_nodekind(FdtTokenKind::BeginNode);
    if toks.len() >= 2 && is_single(toks[1].as_slice(), 123) {
        assert(tv[1] == toks@[1]@);
        mmap.write_nodename(toks[0].as_slice());
        mmap.current_label = None;
    } else {
        if toks.len() < 2 {
            return Err(DtsError::NodeNameNotFound);
        }
        assert(tv[1] == toks@[1]@);
        mmap.write_nodename(toks[1].as_slice());
        mmap.current_label = Some(trim_end_matches(toks[0].as_slice(), 58));
        if toks.len() < 3 || !is_single(toks[2].as_slice(), 123) {
            proof {
                if toks.len() >= 3 {
                    assert(tv[2] == toks@[2]@);
                }
            }
            return Err(DtsError::BraceExpected);
        }
        assert(tv[2] == toks@[2]@);
    }
    let ghost v1 = mmap@;
    assert(spec_dtb_node_header(tv, old(mmap)@) == Ok::<MmapView, (DtsError, MmapView)>(v1));
    assert(tv == tokens_of(ls[pos as int]));
    let mut cur: usize = pos + 1;
    loop
        invariant_except_break
            spec_dtb_node_body(ls, pos + 1, v1) == spec_dtb_node_body(ls, cur as int, mmap@),
        invariant
            pos < cur <= lines@.len(),
            ls == views(lines@),
            mmap.wf(),
            pos < ls.len(),
            spec_dtb_node_header(tokens_of(ls[pos as int]), old(mmap)@) == Ok::<
                MmapView,
                (DtsError, MmapView),
            >(v1),
        ensures
            spec_dtb_node_body(ls, pos + 1, v1) == Ok::<(int, MmapView), (DtsError, MmapView)>(
                (cur as int, mmap@),
            ),
        decreases lines@.len() - cur,
    {
        match parse_line(lines, cur, mmap) {
            Err(e) => {
                return Err(e);
            },
            Ok(q) => {
                if q < lines.len() && is_end_of_node(lines[q].as_slice()) {
                    assert(ls[q as int] == lines@[q as int]@);
                    mmap.write_nodekind(FdtTokenKind::EndNode);
                    cur = q + 1;
                    break ;
                }
                proof {
                    if q < lines.len() {
                        assert(ls[q as int] == lines@[q as int]@);
                    }
                }
                cur = q;
            },
        }
    }
    Ok(cur)
}

/// Compiles line `pos`: skips it when empty, else reads a node or a property.
pub fn parse_line(lines: &Vec<Vec<u8>>, pos: usize, mmap: &mut DtbMmap) -> (r: Result<
    usize,
    DtsError,
>)
    requires
        old(mmap).wf(),
    ensures
        final(mmap).wf(),
        match r {
            Ok(q) => spec_dtb_parse_line(views(lines@), pos as int, old(mmap)@) == Ok::<(int, MmapView), (DtsError, MmapView)>((q as int, final(mmap)@)) && pos < q <= lines@.len(),
            Err(e) => spec_dtb_parse_line(views(lines@), pos as int, old(mmap)@) == Err::<(int, MmapView), (DtsError, MmapView)>((e, final(mmap)@)),
        },
    decreases lines@.len() - pos, 1int,
{
    if pos >= lines.len() {
        return Err(DtsError::UnexpectedEof);
    }
    assert(views(lines@)[pos as int] == lines@[pos as int]@);
    let line = &lines[pos];
    if line.len() == 0 {
        Ok(pos + 1)
    } else if line[line.len() - 1] == 123 {
        parse_node(lines, pos, mmap)
    } else {
        parse_property(lines, pos, mmap)
    }
}

/// A cell without the `0x` prefix that is all decimal digits reads as its
/// decimal value, whatever labels are recorded; `0x` and hexadecimal digits
/// read in base 16.
pub proof fn lemma_dtb_cell_radix(p: Seq<u8>, labels: Map<Seq<u8>, u32>)
    ensures
        is_decimal(p) && digits_value(p, 10) <= u32::MAX ==> spec_dtb_cell(p, labels) == Ok::<
            u32,
            DtsError,
        >(digits_value(p, 10) as u32),
        p.len() > 2 && p[0] == 48 && p[1] == 120 && is_hexadecimal(p.subrange(2, p.len() as int))
            && digits_value(p.subrange(2, p.len() as int), 16) <= u32::MAX ==> spec_dtb_cell(
            p,
            labels,
        ) == Ok::<u32, DtsError>(digits_value(p.subrange(2, p.len() as int), 16) as u32),
{
    if is_decimal(p) && digits_value(p, 10) <= u32::MAX {
        lemma_decimal_reads_in_base_ten(p);
        if p.len() >= 2 {
            assert(48 <= p[1] <= 57);
        }
    }
    let h = p.subrange(2, p.len() as int);
    if p.len() > 2 && p[0] == 48 && p[1] == 120 && is_hexadecimal(h) && digits_value(h, 16)
        <= u32::MAX {
        lemma_hexadecimal_reads_in_base_sixteen(h);
    }
}

/// A node header without a label leaves no current label, so no
/// `#address-cells` in that node records a value; a labelled header makes its
/// label (trailing colons dropped) the current one. A header never changes
/// the recorded label values.
pub proof fn lemma_dtb_header_current_label(toks: Seq<Seq<u8>>, v: MmapView)
    ensures
        spec_dtb_node_header(toks, v) matches Ok(w) ==> {
            &&& w.labels == v.labels
            &&& toks.len() >= 2
            &&& toks[1] == open_brace() ==> w.current_label is None
            &&& toks[1] != open_brace() ==> w.current_label == Some(trim_end_byte(toks[0], 58))
        },
{
}

/// Whether line `p` sets a property by `name = ...`.
pub open spec fn sets_value(lines: Seq<Seq<u8>>, p: int) -> bool {
    tokens_of(lines[p]).len() >= 2 && tokens_of(lines[p])[1] == equals_sign()
}

/// A property line changes no recorded label value unless it is
/// `#address-cells = ...` and there is a current label; then only the current
/// label's value changes, to the first cell written for the property. The
/// current label itself never changes.
pub proof fn lemma_dtb_property_labels(lines: Seq<Seq<u8>>, p: int, v: MmapView)
    ensures
        spec_dtb_parse_property(lines, p, v) matches Ok((q, w)) ==> {
            &&& w.current_label == v.current_label
            &&& (v.current_label is None || tokens_of(lines[p])[0] != address_cells()
                || !sets_value(lines, p)) ==> w.labels == v.labels
            &&& (v.current_label is Some && tokens_of(lines[p])[0] == address_cells() && sets_value(
                lines,
                p,
            )) ==> w.labels == v.labels.insert(
                v.current_label->0,
                w.structure[v.structure.len() + 4int],
            )
        },
        spec_dtb_parse_property(lines, p, v) matches Err((e, w)) ==> w.labels == v.labels
            && w.current_label == v.current_label,
{
    if 0 <= p < lines.len() {
        let toks = tokens_of(lines[p]);
        if toks.len() >= 2 && toks[1] == equals_sign() {
            let d = join_spaced(toks.subrange(2, toks.len() as int));
            lemma_dtb_data_nonempty(d, v.labels);
            match spec_dtb_parse_data(d, v.labels) {
                Ok((data, size)) => {
                    let v0 = spec_write_nodekind(v, FdtTokenKind::Prop);
                    if can_regist_string(v0.strings, toks[0]) {
                        let v1 = spec_write_property(v0, toks[0], data, size);
                        assert(v1.structure[v.structure.len() + 4int] == data[0]);
                    }
                },
                Err(_) => {},
            }
        }
    }
}

} // verus!
