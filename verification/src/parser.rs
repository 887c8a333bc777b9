//! The device tree source parser: lines of text to a tree of tokens.
use vstd::prelude::*;

use crate::bytes::{
    lines_of, split_lines,
    bytes_eq, copy_range, find_byte, find_from, join_spaced, join_tokens, lemma_find_from,
    pack_be_words, pack_words, split_bytes, split_on, split_tokens, tokens_of, trim_end_byte,
    trim_end_matches, trim_start_byte, trim_start_matches, views,
};
use crate::tree_labels::{
    can_regist_phandle, spec_regist_label, spec_regist_phandle, LabelManager, LabelView,
};
use crate::number::{
    digits_value, is_decimal, is_hexadecimal, lemma_decimal_reads_in_base_ten,
    lemma_hexadecimal_reads_in_base_sixteen, parse_dec, parse_hex, parse_u32_radix,
};

verus! {

/// The kinds of structure-block tokens of a flattened device tree.
#[derive(Clone, Copy, PartialEq, Eq, Structural, Debug)]
pub enum FdtTokenKind {
    BeginNode,
    EndNode,
    Prop,
    Nop,
    End,
}

/// The number by which a token kind is written in the structure block.
pub open spec fn kind_code(k: FdtTokenKind) -> u32 {
    match k {
        FdtTokenKind::BeginNode => 1,
        FdtTokenKind::EndNode => 2,
        FdtTokenKind::Prop => 3,
        FdtTokenKind::Nop => 4,
        FdtTokenKind::End => 9,
    }
}

impl FdtTokenKind {
    pub fn code(&self) -> (r: u32)
        ensures
            r == kind_code(*self),
    {
        match self {
            FdtTokenKind::BeginNode => 1,
            FdtTokenKind::EndNode => 2,
            FdtTokenKind::Prop => 3,
            FdtTokenKind::Nop => 4,
            FdtTokenKind::End => 9,
        }
    }
}

/// A node or property of the source tree.
pub struct Token {
    pub kind: FdtTokenKind,
    pub name: Vec<u8>,
    pub data: Option<Vec<u32>>,
    pub label: Option<Vec<u8>>,
    pub child: Option<Vec<Token>>,
}

/// What a token holds, as plain values.
pub struct TokenView {
    pub kind: FdtTokenKind,
    pub name: Seq<u8>,
    pub data: Option<Seq<u32>>,
    pub label: Option<Seq<u8>>,
    pub child: Option<Seq<TokenView>>,
}

pub open spec fn empty_token_view(kind: FdtTokenKind) -> TokenView {
    TokenView { kind, name: Seq::empty(), data: None, label: None, child: None }
}

pub open spec fn token_view(t: Token) -> TokenView
    decreases t,
{
    TokenView {
        kind: t.kind,
        name: t.name@,
        data: match t.data {
            Some(d) => Some(d@),
            None => None,
        },
        label: match t.label {
            Some(l) => Some(l@),
            None => None,
        },
        child: match t.child {
            Some(c) => Some(
                Seq::new(
                    c@.len(),
                    |i: int|
                        if 0 <= i < c@.len() {
                            token_view(c@[i])
                        } else {
                            empty_token_view(FdtTokenKind::Nop)
                        },
                ),
            ),
            None => None,
        },
    }
}

pub open spec fn tokens_view(s: Seq<Token>) -> Seq<TokenView> {
    Seq::new(s.len(), |i: int| token_view(s[i]))
}

impl View for Token {
    type V = TokenView;

    open spec fn view(&self) -> TokenView {
        token_view(*self)
    }
}

impl Token {
    /// A token of the given kind with nothing in it.
    pub fn from_kind(kind: FdtTokenKind) -> (r: Self)
        ensures
            r@ == empty_token_view(kind),
    {
        Token { kind, name: Vec::new(), data: None, label: None, child: None }
    }
}

pub proof fn lemma_token_children_view(t: Token)
    requires
        t.child is Some,
    ensures
        t@.child == Some(tokens_view(t.child->0@)),
{
    let c = t.child->0@;
    assert(t@.child->0 =~= tokens_view(c));
}

/// Why a source text is refused.
#[derive(Clone, Copy, PartialEq, Eq, Structural, Debug)]
pub enum DtsError {
    /// The first line is not `/dts-v1/;`.
    MissingVersion,
    /// A node was expected where the text ends.
    NodeInvalid,
    /// A node line holds no name.
    NodeNameNotFound,
    /// A labelled node line lacks its `{`.
    BraceExpected,
    /// A property was expected where the text ends.
    PropertyInvalid,
    /// A property line holds no name.
    PropNameNotFound,
    /// A property has `=` and nothing after it.
    EmptyData,
    /// Property data does not end with `;`.
    SemicolonExpected,
    /// In a list of strings, a `,` is not followed by `"`.
    QuoteExpected,
    /// A cell written `0x..` is no hexadecimal `u32`.
    HexParse,
    /// Property data starts with none of `"`, `<`, `&`.
    InvalidData,
    /// The text ends inside a node.
    UnexpectedEof,
    /// No phandle number is left to hand out.
    PhandleOverflow,
    /// A cell names a label that has no value.
    LabelReference,
    /// A table or block outgrows 32-bit sizes.
    SizeOverflow,
}

pub open spec fn version_tag() -> Seq<u8> {
    seq![47u8, 100, 116, 115, 45, 118, 49, 47, 59]
}

pub open spec fn end_of_node() -> Seq<u8> {
    seq![125u8, 59]
}

pub open spec fn open_brace() -> Seq<u8> {
    seq![123u8]
}

pub open spec fn equals_sign() -> Seq<u8> {
    seq![61u8]
}

/// Whether `t` is exactly the one byte `c`.
pub fn is_single(t: &[u8], c: u8) -> (r: bool)
    ensures
        r == (t@ == seq![c]),
{
    let r = t.len() == 1 && t[0] == c;
    proof {
        if t.len() == 1 && t[0] == c {
            assert(t@ =~= seq![c]);
        }
    }
    r
}

pub fn is_end_of_node(t: &[u8]) -> (r: bool)
    ensures
        r == (t@ == end_of_node()),
{
    let r = t.len() == 2 && t[0] == 125 && t[1] == 59;
    proof {
        if r {
            assert(t@ =~= end_of_node());
        }
    }
    r
}

/// A string list from index `i` of the data on: the bytes up to the next `"`
/// and a NUL, then, where a `,` follows the closing quote, an optional space, a
/// required `"` and the next string.
pub open spec fn string_list(d: Seq<u8>, i: int) -> Result<Seq<u8>, DtsError>
    decreases d.len() - i,
{
    if i < 0 || i > d.len() {
        Err(DtsError::QuoteExpected)
    } else {
        let e = find_from(d, i, 34);
        proof {
            lemma_find_from(d, i, 34);
        }
        let piece = d.subrange(i, e).push(0u8);
        let n = e + 1;
        if n < d.len() && d[n] == 44 {
            let j = if n + 1 < d.len() && d[n + 1] == 32 {
                n + 2
            } else {
                n + 1
            };
            if j < d.len() && d[j] == 34 {
                match string_list(d, j + 1) {
                    Ok(rest) => Ok(piece + rest),
                    Err(err) => Err(err),
                }
            } else {
                Err(DtsError::QuoteExpected)
            }
        } else {
            Ok(piece)
        }
    }
}

/// One cell of a `<..>` list, and the label state after it: a hexadecimal
/// number after `0x`, a decimal number, or else the phandle of the label that
/// the piece names (leading `&` dropped).
pub open spec fn spec_cell(p: Seq<u8>, lv: LabelView) -> Result<
    (u32, LabelView),
    (DtsError, LabelView),
> {
    if p.len() >= 2 && p[0] == 48 && p[1] == 120 {
        match parse_hex(p.subrange(2, p.len() as int)) {
            Some(v) => Ok((v, lv)),
            None => Err((DtsError::HexParse, lv)),
        }
    } else {
        match parse_dec(p) {
            Some(v) => Ok((v, lv)),
            None => {
                let l = trim_start_byte(p, 38);
                if can_regist_phandle(lv, l) {
                    Ok((spec_regist_phandle(lv, l).1, spec_regist_phandle(lv, l).0))
                } else {
                    Err((DtsError::PhandleOverflow, lv))
                }
            },
        }
    }
}

/// The cells of the pieces, read left to right, threading the label state.
pub open spec fn spec_cells(ps: Seq<Seq<u8>>, lv: LabelView) -> Result<
    (Seq<u32>, LabelView),
    (DtsError, LabelView),
>
    decreases ps.len(),
{
    if ps.len() == 0 {
        Ok((Seq::empty(), lv))
    } else {
        match spec_cells(ps.drop_last(), lv) {
            Err(e) => Err(e),
            Ok((cs, lv1)) => match spec_cell(ps.last(), lv1) {
                Err(e) => Err(e),
                Ok((c, lv2)) => Ok((cs.push(c), lv2)),
            },
        }
    }
}

/// Once a prefix of the pieces fails, every longer prefix fails the same way.
proof fn lemma_cells_error_extends(ps: Seq<Seq<u8>>, j: int, m: int, lv: LabelView)
    requires
        0 <= j <= m <= ps.len(),
        spec_cells(ps.subrange(0, j), lv) is Err,
    ensures
        spec_cells(ps.subrange(0, m), lv) == spec_cells(ps.subrange(0, j), lv),
    decreases m - j,
{
    if m > j {
        lemma_cells_error_extends(ps, j, m - 1, lv);
        assert(ps.subrange(0, m).drop_last() =~= ps.subrange(0, m - 1));
    }
}

/// What the text after `=` of a property stands for: its cells or its label
/// reference, and the label state after it.
pub open spec fn spec_parse_data(d: Seq<u8>, lv: LabelView) -> Result<
    (Option<Seq<u32>>, Option<Seq<u8>>, LabelView),
    (DtsError, LabelView),
> {
    if d.len() == 0 {
        Err((DtsError::EmptyData, lv))
    } else if d.last() != 59 {
        Err((DtsError::SemicolonExpected, lv))
    } else if d[0] == 34 {
        match string_list(d, 1) {
            Ok(bytes) => Ok((Some(pack_words(bytes)), None, lv)),
            Err(e) => Err((e, lv)),
        }
    } else if d[0] == 60 {
        let e = find_from(d, 1, 62);
        match spec_cells(split_on(d.subrange(1, e), 32), lv) {
            Ok((cs, lv1)) => Ok((Some(cs), None, lv1)),
            Err(err) => Err(err),
        }
    } else if d[0] == 38 {
        Ok((None, Some(d.subrange(1, find_from(d, 1, 59))), lv))
    } else {
        Err((DtsError::InvalidData, lv))
    }
}

pub open spec fn opt_words(o: Option<Vec<u32>>) -> Option<Seq<u32>> {
    match o {
        Some(v) => Some(v@),
        None => None,
    }
}

pub open spec fn opt_bytes(o: Option<Vec<u8>>) -> Option<Seq<u8>> {
    match o {
        Some(v) => Some(v@),
        None => None,
    }
}

fn append_range(acc: &mut Vec<u8>, s: &[u8], start: usize, end: usize)
    requires
        start <= end <= s.len(),
    ensures
        final(acc)@ == old(acc)@ + s@.subrange(start as int, end as int),
{
    let mut i = start;
    while i < end
        invariant
            start <= i <= end <= s.len(),
            acc@ == old(acc)@ + s@.subrange(start as int, i as int),
        decreases end - i,
    {
        acc.push(s[i]);
        i = i + 1;
        assert(acc@ =~= old(acc)@ + s@.subrange(start as int, i as int));
    }
}

/// Reads the string list that starts after the opening quote at index 0.
fn read_string_list(d: &[u8]) -> (r: Result<Vec<u8>, DtsError>)
    requires
        d.len() >= 1,
    ensures
        match r {
            Ok(v) => string_list(d@, 1) == Ok::<Seq<u8>, DtsError>(v@),
            Err(e) => string_list(d@, 1) == Err::<Seq<u8>, DtsError>(e),
        },
{
    let mut acc: Vec<u8> = Vec::new();
    let mut i: usize = 1;
    loop
        invariant
            1 <= i <= d.len(),
            string_list(d@, 1) == match string_list(d@, i as int) {
                Ok(rest) => Ok(acc@ + rest),
                Err(e) => Err(e),
            },
        decreases d.len() - i,
    {
        let e = find_byte(d, i, 34);
        proof {
            lemma_find_from(d@, i as int, 34);
        }
        let ghost acc0 = acc@;
        let ghost piece = d@.subrange(i as int, e as int).push(0u8);
        append_range(&mut acc, d, i, e);
        acc.push(0u8);
        assert(acc@ =~= acc0 + piece);
        if e < d.len() && e + 1 < d.len() && d[e + 1] == 44 {
            let n = e + 1;
            let j = if n + 1 < d.len() && d[n + 1] == 32 {
                n + 2
            } else {
                n + 1
            };
            if j < d.len() && d[j] == 34 {
                proof {
                    match string_list(d@, (j + 1) as int) {
                        Ok(rest) => {
                            assert(acc0 + (piece + rest) =~= acc@ + rest);
                        },
                        Err(_) => {},
                    }
                }
                i = j + 1;
            } else {
                return Err(DtsError::QuoteExpected);
            }
        } else {
            return Ok(acc);
        }
    }
}

/// Reads one cell of a `<..>` list.
fn parse_cell(p: &[u8], lm: &mut LabelManager) -> (r: Result<u32, DtsError>)
    requires
        old(lm).wf(),
    ensures
        final(lm).wf(),
        match r {
            Ok(c) => spec_cell(p@, old(lm)@) == Ok::<(u32, LabelView), (DtsError, LabelView)>((c, final(lm)@)),
            Err(e) => spec_cell(p@, old(lm)@) == Err::<(u32, LabelView), (DtsError, LabelView)>((e, final(lm)@))
                && final(lm)@ == old(lm)@,
        },
{
    if p.len() >= 2 && p[0] == 48 && p[1] == 120 {
        let hex = copy_range(p, 2, p.len());
        match parse_u32_radix(hex.as_slice(), 16) {
            Some(v) => Ok(v),
            None => Err(DtsError::HexParse),
        }
    } else {
        match parse_u32_radix(p, 10) {
            Some(v) => Ok(v),
            None => {
                let l = trim_start_matches(p, 38);
                if lm.can_regist_phandle(l.as_slice()) {
                    Ok(lm.regist_phandle(l.as_slice()))
                } else {
                    Err(DtsError::PhandleOverflow)
                }
            },
        }
    }
}

/// Reads the cells of a `<..>` list from its space-separated pieces.
fn parse_cells(inner: &[u8], lm: &mut LabelManager) -> (r: Result<Vec<u32>, DtsError>)
    requires
        old(lm).wf(),
    ensures
        final(lm).wf(),
        match r {
            Ok(cs) => spec_cells(split_on(inner@, 32), old(lm)@) == Ok::<
                (Seq<u32>, LabelView), (DtsError, LabelView)>((cs@, final(lm)@)),
            Err(e) => spec_cells(split_on(inner@, 32), old(lm)@) == Err::<
                (Seq<u32>, LabelView), (DtsError, LabelView)>((e, final(lm)@)),
        },
{
    let pieces = split_bytes(inner, 32);
    let ghost ps = views(pieces@);
    let mut cells: Vec<u32> = Vec::new();
    let mut k: usize = 0;
    assert(ps.subrange(0, 0) =~= Seq::<Seq<u8>>::empty());
    while k < pieces.len()
        invariant
            k <= pieces@.len(),
            ps == views(pieces@),
            ps == split_on(inner@, 32),
            lm.wf(),
            spec_cells(ps.subrange(0, k as int), old(lm)@) == Ok::<
                (Seq<u32>, LabelView), (DtsError, LabelView)>((cells@, lm@)),
        decreases pieces.len() - k,
    {
        let ghost pre = ps.subrange(0, k as int);
        let ghost pre1 = ps.subrange(0, k + 1);
        assert(pre1.drop_last() =~= pre);
        assert(pre1.last() == pieces@[k as int]@);
        let c = parse_cell(pieces[k].as_slice(), lm);
        match c {
            Ok(v) => {
                cells.push(v);
            },
            Err(e) => {
                proof {
                    lemma_cells_error_extends(ps, k + 1, ps.len() as int, old(lm)@);
                    assert(ps.subrange(0, ps.len() as int) =~= ps);
                }
                return Err(e);
            },
        }
        k = k + 1;
    }
    assert(ps.subrange(0, k as int) =~= ps);
    Ok(cells)
}

/// Reads the text after `=` of a property.
pub fn parse_data(data: &[u8], lm: &mut LabelManager) -> (r: Result<
    (Option<Vec<u32>>, Option<Vec<u8>>),
    DtsError,
>)
    requires
        old(lm).wf(),
    ensures
        final(lm).wf(),
        match r {
            Ok((cs, l)) => spec_parse_data(data@, old(lm)@) == Ok::<
                (Option<Seq<u32>>, Option<Seq<u8>>, LabelView), (DtsError, LabelView)>((opt_words(cs), opt_bytes(l), final(lm)@)),
            Err(e) => spec_parse_data(data@, old(lm)@) == Err::<
                (Option<Seq<u32>>, Option<Seq<u8>>, LabelView), (DtsError, LabelView)>((e, final(lm)@)),
        },
{
    if data.len() == 0 {
        return Err(DtsError::EmptyData);
    }
    if data[data.len() - 1] != 59 {
        return Err(DtsError::SemicolonExpected);
    }
    if data[0] == 34 {
        match read_string_list(data) {
            Ok(bytes) => Ok((Some(pack_be_words(bytes.as_slice())), None)),
            Err(e) => Err(e),
        }
    } else if data[0] == 60 {
        let e = find_byte(data, 1, 62);
        let inner = copy_range(data, 1, e);
        match parse_cells(inner.as_slice(), lm) {
            Ok(cs) => Ok((Some(cs), None)),
            Err(err) => Err(err),
        }
    } else if data[0] == 38 {
        let e = find_byte(data, 1, 59);
        Ok((None, Some(copy_range(data, 1, e))))
    } else {
        Err(DtsError::InvalidData)
    }
}

/// What the property line at `p` stands for, the next line, and the label
/// state after it. A line without `=` after its name stands for a `Nop`.
pub open spec fn spec_parse_property(lines: Seq<Seq<u8>>, p: int, lv: LabelView) -> Result<
    (TokenView, int, LabelView),
    (DtsError, LabelView),
> {
    if p < 0 || p >= lines.len() {
        Err((DtsError::PropertyInvalid, lv))
    } else {
        let toks = tokens_of(lines[p]);
        if toks.len() == 0 {
            Err((DtsError::PropNameNotFound, lv))
        } else if toks.len() >= 2 && toks[1] == equals_sign() {
            match spec_parse_data(join_spaced(toks.subrange(2, toks.len() as int)), lv) {
                Ok((d, l, lv1)) => Ok(
                    (
                        TokenView {
                            kind: FdtTokenKind::Prop,
                            name: toks[0],
                            data: d,
                            label: l,
                            child: None,
                        },
                        p + 1,
                        lv1,
                    ),
                ),
                Err(e) => Err(e),
            }
        } else {
            Ok((empty_token_view(FdtTokenKind::Nop), p + 1, lv))
        }
    }
}

/// The name of the node that the header line `toks` opens, and the label
/// state after it: `name {` or `label: name {`, the label registered for the
/// name without its trailing colons; the label is registered before the `{`
/// is looked for, so a missing `{` leaves it registered.
pub open spec fn spec_node_header(toks: Seq<Seq<u8>>, lv: LabelView) -> Result<
    (Seq<u8>, LabelView),
    (DtsError, LabelView),
> {
    if toks.len() == 0 {
        Err((DtsError::NodeNameNotFound, lv))
    } else if toks.len() >= 2 && toks[1] == open_brace() {
        Ok((toks[0], lv))
    } else if toks.len() < 2 {
        Err((DtsError::NodeNameNotFound, lv))
    } else {
        let lv1 = spec_regist_label(lv, trim_end_byte(toks[0], 58), toks[1]);
        if toks.len() < 3 || toks[2] != open_brace() {
            Err((DtsError::BraceExpected, lv1))
        } else {
            Ok((toks[1], lv1))
        }
    }
}

/// The node whose header is the line at `p`, the line after its `};`, and the
/// label state after it.
pub open spec fn spec_parse_node(lines: Seq<Seq<u8>>, p: int, lv: LabelView) -> Result<
    (TokenView, int, LabelView),
    (DtsError, LabelView),
>
    decreases lines.len() - p, 0int,
{
    if p < 0 || p >= lines.len() {
        Err((DtsError::NodeInvalid, lv))
    } else {
        match spec_node_header(tokens_of(lines[p]), lv) {
            Err(e) => Err(e),
            Ok((name, lv1)) => match spec_parse_children(lines, p + 1, lv1, Seq::empty()) {
                Err(e) => Err(e),
                Ok((kids, q, lv2)) => Ok(
                    (
                        TokenView {
                            kind: FdtTokenKind::BeginNode,
                            name,
                            data: None,
                            label: None,
                            child: if kids.len() == 0 {
                                None
                            } else {
                                Some(kids)
                            },
                        },
                        q,
                        lv2,
                    ),
                ),
            },
        }
    }
}

/// The token that starts at line `p`: a node when the line ends with `{`,
/// else a property.
pub open spec fn spec_parse_token(lines: Seq<Seq<u8>>, p: int, lv: LabelView) -> Result<
    (TokenView, int, LabelView),
    (DtsError, LabelView),
>
    decreases lines.len() - p, 1int,
{
    if p < 0 || p >= lines.len() {
        Err((DtsError::UnexpectedEof, lv))
    } else if lines[p].len() > 0 && lines[p].last() == 123 {
        spec_parse_node(lines, p, lv)
    } else {
        spec_parse_property(lines, p, lv)
    }
}

/// The children of a node from line `p` to its `};` line, after the children
/// `acc` already read: lines are read as children until a line that is
/// exactly `};`, which ends the node and is consumed with it; empty lines are
/// skipped, and running out of lines first is an error.
pub open spec fn spec_parse_children(
    lines: Seq<Seq<u8>>,
    p: int,
    lv: LabelView,
    acc: Seq<TokenView>,
) -> Result<(Seq<TokenView>, int, LabelView), (DtsError, LabelView)>
    decreases lines.len() - p, 2int,
{
    if p < 0 || p >= lines.len() {
        Err((DtsError::UnexpectedEof, lv))
    } else if lines[p] == end_of_node() {
        Ok((acc, p + 1, lv))
    } else if lines[p].len() == 0 {
        spec_parse_children(lines, p + 1, lv, acc)
    } else {
        match spec_parse_token(lines, p, lv) {
            Err(e) => Err(e),
            Ok((t, q, lv1)) => if q <= p || q > lines.len() {
                Err((DtsError::UnexpectedEof, lv1))
            } else {
                spec_parse_children(lines, q, lv1, acc.push(t))
            },
        }
    }
}

/// The tree of a source text: the first line must be `/dts-v1/;`, and the
/// root node starts on the second.
pub open spec fn spec_make_tree(text: Seq<u8>, lv: LabelView) -> Result<
    (TokenView, LabelView),
    (DtsError, LabelView),
> {
    let ls = lines_of(text);
    if ls.len() == 0 || ls[0] != version_tag() {
        Err((DtsError::MissingVersion, lv))
    } else {
        match spec_parse_node(ls, 1, lv) {
            Ok((t, q, lv1)) => Ok((t, lv1)),
            Err(e) => Err(e),
        }
    }
}

/// Reads the property on line `pos`.
pub fn parse_property(lines: &Vec<Vec<u8>>, pos: usize, lm: &mut LabelManager) -> (r: Result<
    (Token, usize),
    DtsError,
>)
    requires
        old(lm).wf(),
    ensures
        final(lm).wf(),
        match r {
            Ok((t, q)) => spec_parse_property(views(lines@), pos as int, old(lm)@) == Ok::<
                (TokenView, int, LabelView), (DtsError, LabelView)>((t@, q as int, final(lm)@)) && pos < q <= lines@.len(),
            Err(e) => spec_parse_property(views(lines@), pos as int, old(lm)@) == Err::<
                (TokenView, int, LabelView), (DtsError, LabelView)>((e, final(lm)@)),
        },
{
    if pos >= lines.len() {
        return Err(DtsError::PropertyInvalid);
    }
    let toks = split_tokens(lines[pos].as_slice());
    assert(views(lines@)[pos as int] == lines@[pos as int]@);
    assert(views(toks@) == tokens_of(views(lines@)[pos as int]));
    if toks.len() == 0 {
        return Err(DtsError::PropNameNotFound);
    }
    if toks.len() >= 2 && is_single(toks[1].as_slice(), 61) {
        let raw = join_tokens(&toks, 2);
        assert(views(toks@).subrange(2, toks@.len() as int) == views(toks@).subrange(
            2,
            views(toks@).len() as int,
        ));
        match parse_data(raw.as_slice(), lm) {
            Ok((data, label)) => {
                let name = copy_bytes_vec(&toks[0]);
                let t = Token { kind: FdtTokenKind::Prop, name, data, label, child: None };
                assert(views(toks@)[0] == toks@[0]@);
                Ok((t, pos + 1))
            },
            Err(e) => Err(e),
        }
    } else {
        Ok((Token::from_kind(FdtTokenKind::Nop), pos + 1))
    }
}

fn copy_bytes_vec(v: &Vec<u8>) -> (r: Vec<u8>)
    ensures
        r@ == v@,
{
    crate::bytes::copy_bytes(v.as_slice())
}

/// Reads the node whose header is on line `pos`, up to and including its `};`:
/// the lines after the header are read as children until a line that is
/// exactly `};`.
pub fn parse_node(lines: &Vec<Vec<u8>>, pos: usize, lm: &mut LabelManager) -> (r: Result<
    (Token, usize),
    DtsError,
>)
    requires
        old(lm).wf(),
    ensures
        final(lm).wf(),
        match r {
            Ok((t, q)) => spec_parse_node(views(lines@), pos as int, old(lm)@) == Ok::<
                (TokenView, int, LabelView), (DtsError, LabelView)>((t@, q as int, final(lm)@)) && pos < q <= lines@.len(),
            Err(e) => spec_parse_node(views(lines@), pos as int, old(lm)@) == Err::<
                (TokenView, int, LabelView), (DtsError, LabelView)>((e, final(lm)@)),
        },
    decreases lines@.len() - pos, 0int,
{
    let ghost ls = views(lines@);
    if pos >= lines.len() {
        return Err(DtsError::NodeInvalid);
    }
    let toks = split_tokens(lines[pos].as_slice());
    assert(ls[pos as int] == lines@[pos as int]@);
    let ghost tv = views(toks@);
    if toks.len() == 0 {
        return Err(DtsError::NodeNameNotFound);
    }
    let name: Vec<u8>;
    if toks.len() >= 2 && is_single(toks[1].as_slice(), 123) {
        assert(tv[1] == toks@[1]@);
        name = copy_bytes_vec(&toks[0]);
        assert(tv[0] == toks@[0]@);
    } else {
        if toks.len() < 2 {
            return Err(DtsError::NodeNameNotFound);
        }
        assert(tv[1] == toks@[1]@);
        assert(tv[0] == toks@[0]@);
        let label = trim_end_matches(toks[0].as_slice(), 58);
        name = copy_bytes_vec(&toks[1]);
        let data = copy_bytes_vec(&toks[1]);
        lm.regist_label(label, data);
        if toks.len() < 3 || !is_single(toks[2].as_slice(), 123) {
            proof {
                if toks.len() >= 3 {
                    assert(tv[2] == toks@[2]@);
                }
            }
            return Err(DtsError::BraceExpected);
        }
        assert(tv[2] == toks@[2]@);
    }
    let ghost lv1 = lm@;
    assert(spec_node_header(tv, old(lm)@) == Ok::<(Seq<u8>, LabelView), (DtsError, LabelView)>(
        (name@, lv1),
    ));
    assert(tv == tokens_of(ls[pos as int]));
    let mut kids: Vec<Token> = Vec::new();
    let mut cur: usize = pos + 1;
    assert(tokens_view(kids@) =~= Seq::<TokenView>::empty());
    loop
        invariant_except_break
            spec_parse_children(ls, pos + 1, lv1, Seq::empty()) == spec_parse_children(
                ls,
                cur as int,
                lm@,
                tokens_view(kids@),
            ),
        invariant
            pos < cur <= lines@.len(),
            ls == views(lines@),
            lm.wf(),
            pos < ls.len(),
            spec_node_header(tokens_of(ls[pos as int]), old(lm)@) == Ok::<
                (Seq<u8>, LabelView), (DtsError, LabelView)>((name@, lv1)),
        ensures
            spec_parse_children(ls, pos + 1, lv1, Seq::empty()) == Ok::<
                (Seq<TokenView>, int, LabelView), (DtsError, LabelView)>((tokens_view(kids@), cur as int, lm@)),
        decreases lines@.len() - cur,
    {
        if cur >= lines.len() {
            return Err(DtsError::UnexpectedEof);
        }
        assert(ls[cur as int] == lines@[cur as int]@);
        if is_end_of_node(lines[cur].as_slice()) {
            cur = cur + 1;
            break ;
        } else if lines[cur].len() == 0 {
            cur = cur + 1;
        } else {
            match parse_token(lines, cur, lm) {
                Ok((t, q)) => {
                    let ghost kv = tokens_view(kids@);
                    kids.push(t);
                    assert(tokens_view(kids@) =~= kv.push(t@));
                    cur = q;
                },
                Err(e) => {
                    return Err(e);
                },
            }
        }
    }
    let ghost kids_view = tokens_view(kids@);
    let n = kids.len();
    let child = if n == 0 {
        None
    } else {
        Some(kids)
    };
    let t = Token { kind: FdtTokenKind::BeginNode, name, data: None, label: None, child };
    proof {
        if n != 0 {
            lemma_token_children_view(t);
        }
    }
    Ok((t, cur))
}

/// Reads the node or property that starts on line `pos`.
pub fn parse_token(lines: &Vec<Vec<u8>>, pos: usize, lm: &mut LabelManager) -> (r: Result<
    (Token, usize),
    DtsError,
>)
    requires
        old(lm).wf(),
    ensures
        final(lm).wf(),
        match r {
            Ok((t, q)) => spec_parse_token(views(lines@), pos as int, old(lm)@) == Ok::<
                (TokenView, int, LabelView), (DtsError, LabelView)>((t@, q as int, final(lm)@)) && pos < q <= lines@.len(),
            Err(e) => spec_parse_token(views(lines@), pos as int, old(lm)@) == Err::<
                (TokenView, int, LabelView), (DtsError, LabelView)>((e, final(lm)@)),
        },
    decreases lines@.len() - pos, 1int,
{
    if pos >= lines.len() {
        return Err(DtsError::UnexpectedEof);
    }
    assert(views(lines@)[pos as int] == lines@[pos as int]@);
    let line = &lines[pos];
    if line.len() > 0 && line[line.len() - 1] == 123 {
        parse_node(lines, pos, lm)
    } else {
        parse_property(lines, pos, lm)
    }
}

/// Reads the tree of a source text; the first line must be `/dts-v1/;`.
pub fn make_tree(dts: &[u8], label_mgr: &mut LabelManager) -> (r: Result<Token, DtsError>)
    requires
        old(label_mgr).wf(),
    ensures
        final(label_mgr).wf(),
        match r {
            Ok(t) => spec_make_tree(dts@, old(label_mgr)@) == Ok::<
                (TokenView, LabelView), (DtsError, LabelView)>((t@, final(label_mgr)@)),
            Err(e) => spec_make_tree(dts@, old(label_mgr)@) == Err::<
                (TokenView, LabelView), (DtsError, LabelView)>((e, final(label_mgr)@)),
        },
{
    let lines = split_lines(dts);
    let tag: [u8; 9] = [47, 100, 116, 115, 45, 118, 49, 47, 59];
    assert(tag@ =~= version_tag());
    if lines.len() == 0 || !bytes_eq(lines[0].as_slice(), tag.as_slice()) {
        proof {
            if lines.len() > 0 {
                assert(views(lines@)[0] == lines@[0]@);
            }
        }
        return Err(DtsError::MissingVersion);
    }
    assert(views(lines@)[0] == lines@[0]@);
    match parse_node(&lines, 1, label_mgr) {
        Ok((t, q)) => Ok(t),
        Err(e) => Err(e),
    }
}

/// The label state that a parse of property data leaves, whether it
/// succeeds or fails.
pub open spec fn data_label_state(
    r: Result<(Option<Seq<u32>>, Option<Seq<u8>>, LabelView), (DtsError, LabelView)>,
) -> LabelView {
    match r {
        Ok((_, _, lv)) => lv,
        Err((_, lv)) => lv,
    }
}

/// `lv2` keeps the labels of `lv` and every phandle it handed out, and its
/// counter grew by the number of labels that got a new phandle.
pub open spec fn only_adds_phandles(lv: LabelView, lv2: LabelView) -> bool {
    &&& lv2.labels == lv.labels
    &&& lv2.phandles.dom().finite()
    &&& forall|k: Seq<u8>|
        #![trigger lv.phandles.contains_key(k)]
        lv.phandles.contains_key(k) ==> lv2.phandles.contains_key(k) && lv2.phandles[k]
            == lv.phandles[k]
    &&& lv2.current_phandle - lv.current_phandle == lv2.phandles.dom().len()
        - lv.phandles.dom().len()
}

proof fn lemma_cell_only_adds(p: Seq<u8>, lv: LabelView)
    requires
        lv.phandles.dom().finite(),
    ensures
        only_adds_phandles(
            lv,
            match spec_cell(p, lv) {
                Ok((_, lv2)) => lv2,
                Err((_, lv2)) => lv2,
            },
        ),
{
    let l = trim_start_byte(p, 38);
    if !(p.len() >= 2 && p[0] == 48 && p[1] == 120) && parse_dec(p) is None && can_regist_phandle(
        lv,
        l,
    ) && !lv.phandles.contains_key(l) {
        vstd::set::axiom_set_insert_len(lv.phandles.dom(), l);
        assert(lv.phandles.insert(l, (lv.current_phandle + 1) as u32).dom() =~= lv.phandles.dom().insert(
            l,
        ));
    }
}

proof fn lemma_cells_only_adds(ps: Seq<Seq<u8>>, lv: LabelView)
    requires
        lv.phandles.dom().finite(),
    ensures
        only_adds_phandles(
            lv,
            match spec_cells(ps, lv) {
                Ok((_, lv2)) => lv2,
                Err((_, lv2)) => lv2,
            },
        ),
    decreases ps.len(),
{
    if ps.len() > 0 {
        lemma_cells_only_adds(ps.drop_last(), lv);
        match spec_cells(ps.drop_last(), lv) {
            Ok((cs, lv1)) => {
                lemma_cell_only_adds(ps.last(), lv1);
            },
            Err(_) => {},
        }
    }
}

/// Reading property data keeps every label, never takes back or changes a
/// phandle, and raises the phandle counter by exactly the number of labels
/// that got a new phandle; data that is no `<..>` list leaves the label
/// state as it was. This holds on success and on failure.
pub proof fn lemma_parse_data_only_adds_phandles(d: Seq<u8>, lv: LabelView)
    requires
        lv.phandles.dom().finite(),
    ensures
        only_adds_phandles(lv, data_label_state(spec_parse_data(d, lv))),
        !(d.len() > 0 && d.last() == 59 && d[0] == 60) ==> data_label_state(
            spec_parse_data(d, lv),
        ) == lv,
{
    if d.len() > 0 && d.last() == 59 && d[0] == 60 {
        let e = find_from(d, 1, 62);
        lemma_cells_only_adds(split_on(d.subrange(1, e), 32), lv);
    }
}

/// A cell that is all decimal digits reads as its decimal value and leaves
/// the label state alone; `0x` and hexadecimal digits read in base 16.
pub proof fn lemma_cell_radix(p: Seq<u8>, lv: LabelView)
    ensures
        is_decimal(p) && digits_value(p, 10) <= u32::MAX ==> spec_cell(p, lv) == Ok::<
            (u32, LabelView),
            (DtsError, LabelView),
        >((digits_value(p, 10) as u32, lv)),
        p.len() > 2 && p[0] == 48 && p[1] == 120 && is_hexadecimal(p.subrange(2, p.len() as int))
            && digits_value(p.subrange(2, p.len() as int), 16) <= u32::MAX ==> spec_cell(p, lv)
            == Ok::<(u32, LabelView), (DtsError, LabelView)>(
            (digits_value(p.subrange(2, p.len() as int), 16) as u32, lv),
        ),
{
    if is_decimal(p) && digits_value(p, 10) <= u32::MAX {
        lemma_decimal_reads_in_base_ten(p);
        if p.len() >= 2 {
            assert(48 <= p[1] <= 57);
        }
    }
    let h = p.subrange(2, p.len() as int);
    if p.len() > 2 && p[0] == 48 && p[1] == 120 && is_hexadecimal(h) && digits_value(h, 16)
        <= u32::MAX {
        lemma_hexadecimal_reads_in_base_sixteen(h);
    }
}

/// `s` holds no double quote.
pub open spec fn quote_free(s: Seq<u8>) -> bool {
    forall|i: int| 0 <= i < s.len() ==> #[trigger] s[i] != 34
}

proof fn lemma_find_quote_after(d: Seq<u8>, i: int, s: Seq<u8>)
    requires
        0 <= i,
        i + s.len() < d.len(),
        d.subrange(i, i + s.len()) == s,
        quote_free(s),
        d[i + s.len()] == 34,
    ensures
        find_from(d, i, 34) == i + s.len(),
    decreases s.len(),
{
    if s.len() > 0 {
        assert(d[i] == s[0]);
        assert(d.subrange(i + 1, i + s.len()) =~= s.drop_first());
        lemma_find_quote_after(d, i + 1, s.drop_first());
    }
}

/// A quoted string reads up to its closing quote, commas and all, followed
/// by one NUL: `"s";` is the bytes of `s` and a NUL, packed into cells.
pub proof fn lemma_single_string(s: Seq<u8>, lv: LabelView)
    requires
        quote_free(s),
    ensures
        string_list(seq![34u8] + s + seq![34u8, 59u8], 1) == Ok::<Seq<u8>, DtsError>(
            s.push(0u8),
        ),
        spec_parse_data(seq![34u8] + s + seq![34u8, 59u8], lv) == Ok::<
            (Option<Seq<u32>>, Option<Seq<u8>>, LabelView),
            (DtsError, LabelView),
        >((Some(pack_words(s.push(0u8))), None, lv)),
{
    let d = seq![34u8] + s + seq![34u8, 59u8];
    assert(d.subrange(1, 1 + s.len() as int) =~= s);
    lemma_find_quote_after(d, 1, s);
    assert(d.subrange(1, 1 + s.len() as int).push(0u8) =~= s.push(0u8));
}

/// Two quoted strings joined by `", "` read as each string with its NUL, in
/// order.
pub proof fn lemma_two_strings(s1: Seq<u8>, s2: Seq<u8>)
    requires
        quote_free(s1),
        quote_free(s2),
    ensures
        string_list(seq![34u8] + s1 + seq![34u8, 44u8, 32u8, 34u8] + s2 + seq![34u8, 59u8], 1)
            == Ok::<Seq<u8>, DtsError>(s1.push(0u8) + s2.push(0u8)),
{
    let d = seq![34u8] + s1 + seq![34u8, 44u8, 32u8, 34u8] + s2 + seq![34u8, 59u8];
    let n1 = s1.len() as int;
    assert(d.subrange(1, 1 + n1) =~= s1);
    lemma_find_quote_after(d, 1, s1);
    let j = n1 + 4;
    assert(d[n1 + 2] == 44 && d[n1 + 3] == 32 && d[j] == 34);
    assert(d.subrange(j + 1, j + 1 + s2.len()) =~= s2);
    lemma_find_quote_after(d, j + 1, s2);
    assert(d[j + 1 + s2.len() + 1] == 59);
    assert(d.subrange(1, 1 + n1).push(0u8) =~= s1.push(0u8));
    assert(d.subrange(j + 1, j + 1 + s2.len()).push(0u8) =~= s2.push(0u8));
    assert(string_list(d, j + 1) == Ok::<Seq<u8>, DtsError>(s2.push(0u8)));
    assert(string_list(d, 1) == Ok::<Seq<u8>, DtsError>(s1.push(0u8) + s2.push(0u8)));
}

} // verus!
