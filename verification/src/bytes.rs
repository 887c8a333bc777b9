//! Byte-level text helpers: line splitting, whitespace tokens, joining,
//! trimming and the big-endian packing of bytes into 32-bit cells.
use vstd::prelude::*;

verus! {

/// The ASCII whitespace bytes that separate tokens on a line.
pub open spec fn is_ws(b: u8) -> bool {
    b == 32 || b == 9 || b == 10 || b == 11 || b == 12 || b == 13
}

pub fn is_ws_byte(b: u8) -> (r: bool)
    ensures
        r == is_ws(b),
{
    b == 32 || b == 9 || b == 10 || b == 11 || b == 12 || b == 13
}

/// Views of a sequence of byte vectors.
pub open spec fn views(v: Seq<Vec<u8>>) -> Seq<Seq<u8>> {
    Seq::new(v.len(), |i: int| v[i]@)
}

pub fn bytes_eq(a: &[u8], b: &[u8]) -> (r: bool)
    ensures
        r == (a@ == b@),
{
    if a.len() != b.len() {
        return false;
    }
    let mut i: usize = 0;
    while i < a.len()
        invariant
            a.len() == b.len(),
            i <= a.len(),
            forall|j: int| 0 <= j < i ==> a@[j] == b@[j],
        decreases a.len() - i,
    {
        if a[i] != b[i] {
            return false;
        }
        i = i + 1;
    }
    assert(a@ =~= b@);
    true
}

/// A fresh vector holding the bytes `s[start..end]`.
pub fn copy_range(s: &[u8], start: usize, end: usize) -> (r: Vec<u8>)
    requires
        start <= end <= s.len(),
    ensures
        r@ == s@.subrange(start as int, end as int),
{
    let mut r: Vec<u8> = Vec::new();
    let mut i: usize = start;
    while i < end
        invariant
            start <= i <= end <= s.len(),
            r@ == s@.subrange(start as int, i as int),
        decreases end - i,
    {
        r.push(s[i]);
        i = i + 1;
        assert(r@ =~= s@.subrange(start as int, i as int));
    }
    r
}

pub fn copy_bytes(s: &[u8]) -> (r: Vec<u8>)
    ensures
        r@ == s@,
{
    let r = copy_range(s, 0, s.len());
    assert(s@.subrange(0, s@.len() as int) =~= s@);
    r
}

/// The first index at or after `i` that holds `b`, or the length when there is none.
pub open spec fn find_from(s: Seq<u8>, i: int, b: u8) -> int
    decreases s.len() - i,
{
    if i >= s.len() {
        s.len() as int
    } else if s[i] == b {
        i
    } else {
        find_from(s, i + 1, b)
    }
}

pub proof fn lemma_find_from(s: Seq<u8>, i: int, b: u8)
    requires
        0 <= i <= s.len(),
    ensures
        i <= find_from(s, i, b) <= s.len(),
        find_from(s, i, b) < s.len() ==> s[find_from(s, i, b)] == b,
        forall|j: int| i <= j < find_from(s, i, b) ==> s[j] != b,
    decreases s.len() - i,
{
    if i < s.len() && s[i] != b {
        lemma_find_from(s, i + 1, b);
    }
}

pub fn find_byte(s: &[u8], start: usize, b: u8) -> (r: usize)
    requires
        start <= s.len(),
    ensures
        r == find_from(s@, start as int, b),
        start <= r <= s.len(),
{
    let mut i = start;
    while i < s.len() && s[i] != b
        invariant
            start <= i <= s.len(),
            find_from(s@, start as int, b) == find_from(s@, i as int, b),
        decreases s.len() - i,
    {
        i = i + 1;
    }
    proof {
        lemma_find_from(s@, start as int, b);
    }
    i
}

/// One line as `str::lines` yields it: the bytes up to the line feed, without a
/// carriage return that stands right before that line feed.
pub open spec fn line_text(s: Seq<u8>, start: int, end: int) -> Seq<u8> {
    if end < s.len() && start < end && s[end - 1] == 13 {
        s.subrange(start, end - 1)
    } else {
        s.subrange(start, end)
    }
}

/// The lines of `s` from index `start` on, split at line feeds; a final line
/// feed ends the last line and starts no empty one.
pub open spec fn lines_from(s: Seq<u8>, start: int) -> Seq<Seq<u8>>
    decreases s.len() + 1 - start,
{
    if start < 0 || start >= s.len() {
        Seq::empty()
    } else {
        let end = find_from(s, start, 10);
        proof {
            lemma_find_from(s, start, 10);
        }
        seq![line_text(s, start, end)] + lines_from(s, end + 1)
    }
}

pub open spec fn lines_of(s: Seq<u8>) -> Seq<Seq<u8>> {
    lines_from(s, 0)
}

/// Splits text into lines as `str::lines` does.
pub fn split_lines(s: &[u8]) -> (r: Vec<Vec<u8>>)
    ensures
        views(r@) == lines_of(s@),
{
    let mut r: Vec<Vec<u8>> = Vec::new();
    let mut start: usize = 0;
    while start < s.len()
        invariant
            start <= s.len(),
            lines_of(s@) == views(r@) + lines_from(s@, start as int),
        decreases s.len() - start,
    {
        let end = find_byte(s, start, 10);
        proof {
            lemma_find_from(s@, start as int, 10);
        }
        let stop = if end < s.len() && start < end && s[end - 1] == 13 {
            end - 1
        } else {
            end
        };
        let line = copy_range(s, start, stop);
        let ghost old_r = r@;
        r.push(line);
        assert(views(r@) =~= views(old_r).push(line_text(s@, start as int, end as int)));
        assert(views(r@) + lines_from(s@, (end + 1) as int) =~= views(old_r) + lines_from(
            s@,
            start as int,
        ));
        if end == s.len() {
            start = s.len();
        } else {
            start = end + 1;
        }
    }
    assert(views(r@) + lines_from(s@, start as int) =~= views(r@));
    r
}

/// The end of the run of non-whitespace bytes that starts at `i`.
pub open spec fn word_end(s: Seq<u8>, i: int) -> int
    decreases s.len() - i,
{
    if i >= s.len() || is_ws(s[i]) {
        i
    } else {
        word_end(s, i + 1)
    }
}

pub proof fn lemma_word_end(s: Seq<u8>, i: int)
    requires
        0 <= i <= s.len(),
    ensures
        i <= word_end(s, i) <= s.len(),
        word_end(s, i) < s.len() ==> is_ws(s[word_end(s, i)]),
        forall|j: int| i <= j < word_end(s, i) ==> !is_ws(#[trigger] s[j]),
    decreases s.len() - i,
{
    if i < s.len() && !is_ws(s[i]) {
        lemma_word_end(s, i + 1);
    }
}

/// The whitespace-separated tokens of `s` from index `i` on.
pub open spec fn tokens_from(s: Seq<u8>, i: int) -> Seq<Seq<u8>>
    decreases s.len() - i,
{
    if i < 0 || i >= s.len() {
        Seq::empty()
    } else if is_ws(s[i]) {
        tokens_from(s, i + 1)
    } else {
        let e = word_end(s, i + 1);
        proof {
            lemma_word_end(s, i + 1);
        }
        seq![s.subrange(i, e)] + tokens_from(s, e)
    }
}

/// The tokens of a line, as `str::split_whitespace` yields them for ASCII text.
pub open spec fn tokens_of(s: Seq<u8>) -> Seq<Seq<u8>> {
    tokens_from(s, 0)
}

pub fn split_tokens(s: &[u8]) -> (r: Vec<Vec<u8>>)
    ensures
        views(r@) == tokens_of(s@),
{
    let mut r: Vec<Vec<u8>> = Vec::new();
    let mut i: usize = 0;
    while i < s.len()
        invariant
            i <= s.len(),
            tokens_of(s@) == views(r@) + tokens_from(s@, i as int),
        decreases s.len() - i,
    {
        if is_ws_byte(s[i]) {
            i = i + 1;
        } else {
            let mut e = i + 1;
            while e < s.len() && !is_ws_byte(s[e])
                invariant
                    i < e <= s.len(),
                    word_end(s@, (i + 1) as int) == word_end(s@, e as int),
                decreases s.len() - e,
            {
                e = e + 1;
            }
            let word = copy_range(s, i, e);
            let ghost old_r = r@;
            r.push(word);
            assert(views(r@) =~= views(old_r).push(s@.subrange(i as int, e as int)));
            assert(views(r@) + tokens_from(s@, e as int) =~= views(old_r) + tokens_from(
                s@,
                i as int,
            ));
            i = e;
        }
    }
    assert(views(r@) + tokens_from(s@, i as int) =~= views(r@));
    r
}

/// The pieces of `s[i..]` between occurrences of byte `b`, as `str::split` yields
/// them: empty pieces included, and one piece more than there are separators.
pub open spec fn split_from(s: Seq<u8>, i: int, b: u8) -> Seq<Seq<u8>>
    decreases s.len() + 1 - i,
{
    if i < 0 || i > s.len() {
        Seq::empty()
    } else {
        let e = find_from(s, i, b);
        proof {
            lemma_find_from(s, i, b);
        }
        if e < s.len() {
            seq![s.subrange(i, e)] + split_from(s, e + 1, b)
        } else {
            seq![s.subrange(i, e)]
        }
    }
}

pub open spec fn split_on(s: Seq<u8>, b: u8) -> Seq<Seq<u8>> {
    split_from(s, 0, b)
}

pub fn split_bytes(s: &[u8], b: u8) -> (r: Vec<Vec<u8>>)
    ensures
        views(r@) == split_on(s@, b),
        r@.len() >= 1,
{
    let mut r: Vec<Vec<u8>> = Vec::new();
    let mut i: usize = 0;
    loop
        invariant
            i <= s.len(),
            split_on(s@, b) == views(r@) + split_from(s@, i as int, b),
        decreases s.len() - i,
    {
        let e = find_byte(s, i, b);
        proof {
            lemma_find_from(s@, i as int, b);
        }
        let piece = copy_range(s, i, e);
        let ghost old_r = r@;
        r.push(piece);
        assert(views(r@) =~= views(old_r).push(s@.subrange(i as int, e as int)));
        if e < s.len() {
            assert(views(r@) + split_from(s@, (e + 1) as int, b) =~= views(old_r) + split_from(
                s@,
                i as int,
                b,
            ));
            i = e + 1;
        } else {
            assert(views(r@) =~= views(old_r) + split_from(s@, i as int, b));
            return r;
        }
    }
}

/// The tokens joined with single spaces, as `[&str]::join(" ")` does.
pub open spec fn join_spaced(ts: Seq<Seq<u8>>) -> Seq<u8>
    decreases ts.len(),
{
    if ts.len() == 0 {
        Seq::empty()
    } else if ts.len() == 1 {
        ts[0]
    } else {
        join_spaced(ts.drop_last()) + seq![32u8] + ts.last()
    }
}

pub fn join_tokens(ts: &Vec<Vec<u8>>, start: usize) -> (r: Vec<u8>)
    requires
        start <= ts.len(),
    ensures
        r@ == join_spaced(views(ts@).subrange(start as int, ts@.len() as int)),
{
    let mut r: Vec<u8> = Vec::new();
    let mut i: usize = start;
    while i < ts.len()
        invariant
            start <= i <= ts.len(),
            r@ == join_spaced(views(ts@).subrange(start as int, i as int)),
        decreases ts.len() - i,
    {
        let ghost before = views(ts@).subrange(start as int, i as int);
        let ghost after = views(ts@).subrange(start as int, i + 1);
        assert(after.drop_last() =~= before);
        if i > start {
            r.push(32u8);
        }
        let t = &ts[i];
        let mut j: usize = 0;
        let ghost r0 = r@;
        while j < t.len()
            invariant
                j <= t.len(),
                r@ == r0 + t@.subrange(0, j as int),
            decreases t.len() - j,
        {
            r.push(t[j]);
            j = j + 1;
            assert(r@ =~= r0 + t@.subrange(0, j as int));
        }
        assert(t@.subrange(0, t@.len() as int) =~= t@);
        assert(r@ =~= join_spaced(after));
        i = i + 1;
    }
    r
}

/// `s` without every trailing occurrence of byte `b`.
pub open spec fn trim_end_byte(s: Seq<u8>, b: u8) -> Seq<u8>
    decreases s.len(),
{
    if s.len() > 0 && s.last() == b {
        trim_end_byte(s.drop_last(), b)
    } else {
        s
    }
}

/// `s` without every leading occurrence of byte `b`.
pub open spec fn trim_start_byte(s: Seq<u8>, b: u8) -> Seq<u8>
    decreases s.len(),
{
    if s.len() > 0 && s[0] == b {
        trim_start_byte(s.drop_first(), b)
    } else {
        s
    }
}

pub fn trim_end_matches(s: &[u8], b: u8) -> (r: Vec<u8>)
    ensures
        r@ == trim_end_byte(s@, b),
{
    let mut e: usize = s.len();
    assert(s@.subrange(0, e as int) =~= s@);
    while e > 0 && s[e - 1] == b
        invariant
            e <= s.len(),
            trim_end_byte(s@, b) == trim_end_byte(s@.subrange(0, e as int), b),
        decreases e,
    {
        assert(s@.subrange(0, e as int).drop_last() =~= s@.subrange(0, e - 1));
        e = e - 1;
    }
    copy_range(s, 0, e)
}

pub fn trim_start_matches(s: &[u8], b: u8) -> (r: Vec<u8>)
    ensures
        r@ == trim_start_byte(s@, b),
{
    let mut i: usize = 0;
    assert(s@.subrange(0, s@.len() as int) =~= s@);
    while i < s.len() && s[i] == b
        invariant
            i <= s.len(),
            trim_start_byte(s@, b) == trim_start_byte(s@.subrange(i as int, s@.len() as int), b),
        decreases s.len() - i,
    {
        assert(s@.subrange(i as int, s@.len() as int).drop_first() =~= s@.subrange(
            i + 1,
            s@.len() as int,
        ));
        i = i + 1;
    }
    copy_range(s, i, s.len())
}

/// `s` with each occurrence of two spaces removed, scanning from the left, as
/// `str::replace("  ", "")` does.
pub open spec fn without_double_spaces(s: Seq<u8>) -> Seq<u8>
    decreases s.len(),
{
    if s.len() == 0 {
        Seq::empty()
    } else if s.len() >= 2 && s[0] == 32 && s[1] == 32 {
        without_double_spaces(s.subrange(2, s.len() as int))
    } else {
        seq![s[0]] + without_double_spaces(s.drop_first())
    }
}

/// No two spaces stand next to each other in `s`.
pub open spec fn has_no_double_space(s: Seq<u8>) -> bool {
    forall|i: int| 0 <= i < s.len() - 1 ==> !(#[trigger] s[i] == 32 && s[i + 1] == 32)
}

pub fn remove_double_spaces(s: &[u8]) -> (r: Vec<u8>)
    ensures
        r@ == without_double_spaces(s@),
{
    let mut r: Vec<u8> = Vec::new();
    let mut i: usize = 0;
    assert(s@.subrange(0, s@.len() as int) =~= s@);
    while i < s.len()
        invariant
            i <= s.len(),
            without_double_spaces(s@) == r@ + without_double_spaces(
                s@.subrange(i as int, s@.len() as int),
            ),
        decreases s.len() - i,
    {
        let ghost rest = s@.subrange(i as int, s@.len() as int);
        if i + 1 < s.len() && s[i] == 32 && s[i + 1] == 32 {
            assert(rest.subrange(2, rest.len() as int) =~= s@.subrange(i + 2, s@.len() as int));
            i = i + 2;
        } else {
            let ghost r0 = r@;
            r.push(s[i]);
            assert(rest.drop_first() =~= s@.subrange(i + 1, s@.len() as int));
            assert(r@ + without_double_spaces(s@.subrange(i + 1, s@.len() as int)) =~= r0
                + without_double_spaces(rest));
            i = i + 1;
        }
    }
    assert(r@ + without_double_spaces(s@.subrange(i as int, s@.len() as int)) =~= r@);
    r
}

/// After the removal no two spaces stand next to each other.
pub proof fn lemma_no_double_space_left(s: Seq<u8>)
    ensures
        has_no_double_space(without_double_spaces(s)),
    decreases s.len(),
{
    if s.len() >= 2 && s[0] == 32 && s[1] == 32 {
        lemma_no_double_space_left(s.subrange(2, s.len() as int));
    } else if s.len() > 0 {
        let t = s.drop_first();
        lemma_no_double_space_left(t);
        let r = without_double_spaces(s);
        let rt = without_double_spaces(t);
        assert(r == seq![s[0]] + rt);
        if s[0] == 32 && t.len() > 0 {
            assert(t[0] != 32);
            assert(rt[0] == t[0]);
        }
        assert forall|i: int| 0 <= i < r.len() - 1 implies !(#[trigger] r[i] == 32 && r[i + 1]
            == 32) by {
            if i > 0 {
                assert(r[i] == rt[i - 1] && r[i + 1] == rt[i]);
            }
        }
    }
}

/// Big-endian value of four bytes.
pub open spec fn be_word(a: u8, b: u8, c: u8, d: u8) -> int {
    a * 16777216 + b * 65536 + c * 256 + d
}

pub open spec fn byte_or_zero(s: Seq<u8>, i: int) -> u8 {
    if 0 <= i < s.len() {
        s[i]
    } else {
        0
    }
}

/// `s` cut into 4-byte chunks, the last one padded with zero bytes, each read as
/// a big-endian 32-bit cell.
pub open spec fn pack_words(s: Seq<u8>) -> Seq<u32> {
    Seq::new(
        ((s.len() + 3) / 4) as nat,
        |i: int|
            be_word(
                byte_or_zero(s, 4 * i),
                byte_or_zero(s, 4 * i + 1),
                byte_or_zero(s, 4 * i + 2),
                byte_or_zero(s, 4 * i + 3),
            ) as u32,
    )
}

fn byte_at(s: &[u8], i: usize) -> (r: u8)
    ensures
        r == byte_or_zero(s@, i as int),
{
    if i < s.len() {
        s[i]
    } else {
        0
    }
}

pub fn be_cell(a: u8, b: u8, c: u8, d: u8) -> (r: u32)
    ensures
        r == be_word(a, b, c, d),
{
    (a as u32) * 16777216 + (b as u32) * 65536 + (c as u32) * 256 + (d as u32)
}

pub fn pack_be_words(s: &[u8]) -> (r: Vec<u32>)
    ensures
        r@ == pack_words(s@),
{
    let n: usize = s.len() / 4 + if s.len() % 4 == 0 {
        0
    } else {
        1
    };
    assert(n == (s.len() + 3) / 4);
    let mut r: Vec<u32> = Vec::new();
    let mut i: usize = 0;
    while i < n
        invariant
            n == (s.len() + 3) / 4,
            i <= n,
            r@ == pack_words(s@).subrange(0, i as int),
        decreases n - i,
    {
        let k = 4 * i;
        let w = be_cell(byte_at(s, k), byte_at(s, k + 1), byte_at(s, k + 2), byte_at(s, k + 3));
        r.push(w);
        i = i + 1;
        assert(r@ =~= pack_words(s@).subrange(0, i as int));
    }
    assert(pack_words(s@).subrange(0, n as int) =~= pack_words(s@));
    r
}

/// The length of the UTF-8 encoding of a whitespace character (as
/// `char::is_whitespace` counts them) at the start of `s`, or 0 when `s` does
/// not start with one: U+0009 to U+000D, U+0020, U+0085, U+00A0, U+1680,
/// U+2000 to U+200A, U+2028, U+2029, U+202F, U+205F and U+3000.
pub open spec fn ws_len(s: Seq<u8>) -> int {
    if s.len() >= 1 && ((9 <= s[0] <= 13) || s[0] == 32) {
        1
    } else if s.len() >= 2 && s[0] == 0xC2 && (s[1] == 0x85 || s[1] == 0xA0) {
        2
    } else if s.len() >= 3 && s[0] == 0xE1 && s[1] == 0x9A && s[2] == 0x80 {
        3
    } else if s.len() >= 3 && s[0] == 0xE2 && s[1] == 0x80 && ((0x80 <= s[2] <= 0x8A) || s[2]
        == 0xA8 || s[2] == 0xA9 || s[2] == 0xAF) {
        3
    } else if s.len() >= 3 && s[0] == 0xE2 && s[1] == 0x81 && s[2] == 0x9F {
        3
    } else if s.len() >= 3 && s[0] == 0xE3 && s[1] == 0x80 && s[2] == 0x80 {
        3
    } else {
        0
    }
}

/// UTF-8 text `s` without its leading whitespace characters, as
/// `str::trim_start` gives it.
pub open spec fn trim_start_ws(s: Seq<u8>) -> Seq<u8>
    decreases s.len(),
{
    let n = ws_len(s);
    if n > 0 {
        trim_start_ws(s.subrange(n, s.len() as int))
    } else {
        s
    }
}

/// The length of the whitespace character that starts at index `i` of `s`, or 0.
fn ws_len_at(s: &[u8], i: usize) -> (r: usize)
    requires
        i <= s.len(),
    ensures
        r == ws_len(s@.subrange(i as int, s@.len() as int)),
        r <= s.len() - i,
{
    let n = s.len() - i;
    let ghost t = s@.subrange(i as int, s@.len() as int);
    if n >= 1 && ((9 <= s[i] && s[i] <= 13) || s[i] == 32) {
        assert(t[0] == s@[i as int]);
        1
    } else if n >= 2 && s[i] == 0xC2 && (s[i + 1] == 0x85 || s[i + 1] == 0xA0) {
        assert(t[0] == s@[i as int] && t[1] == s@[i + 1]);
        2
    } else if n >= 3 && s[i] == 0xE1 && s[i + 1] == 0x9A && s[i + 2] == 0x80 {
        assert(t[0] == s@[i as int] && t[1] == s@[i + 1] && t[2] == s@[i + 2]);
        3
    } else if n >= 3 && s[i] == 0xE2 && s[i + 1] == 0x80 && ((0x80 <= s[i + 2] && s[i + 2]
        <= 0x8A) || s[i + 2] == 0xA8 || s[i + 2] == 0xA9 || s[i + 2] == 0xAF) {
        assert(t[0] == s@[i as int] && t[1] == s@[i + 1] && t[2] == s@[i + 2]);
        3
    } else if n >= 3 && s[i] == 0xE2 && s[i + 1] == 0x81 && s[i + 2] == 0x9F {
        assert(t[0] == s@[i as int] && t[1] == s@[i + 1] && t[2] == s@[i + 2]);
        3
    } else if n >= 3 && s[i] == 0xE3 && s[i + 1] == 0x80 && s[i + 2] == 0x80 {
        assert(t[0] == s@[i as int] && t[1] == s@[i + 1] && t[2] == s@[i + 2]);
        3
    } else {
        proof {
            if n >= 1 {
                assert(t[0] == s@[i as int]);
            }
            if n >= 2 {
                assert(t[1] == s@[i + 1]);
            }
            if n >= 3 {
                assert(t[2] == s@[i + 2]);
            }
        }
        0
    }
}

/// UTF-8 text without its leading whitespace characters, as `str::trim_start`
/// gives it.
pub fn trim_start_whitespace(s: &[u8]) -> (r: Vec<u8>)
    ensures
        r@ == trim_start_ws(s@),
{
    let mut i: usize = 0;
    assert(s@.subrange(0, s@.len() as int) =~= s@);
    loop
        invariant
            i <= s.len(),
            trim_start_ws(s@) == trim_start_ws(s@.subrange(i as int, s@.len() as int)),
        ensures
            i <= s.len(),
            trim_start_ws(s@) == trim_start_ws(s@.subrange(i as int, s@.len() as int)),
            ws_len(s@.subrange(i as int, s@.len() as int)) == 0,
        decreases s.len() - i,
    {
        let n = ws_len_at(s, i);
        if n == 0 {
            break ;
        }
        let ghost t = s@.subrange(i as int, s@.len() as int);
        assert(t.subrange(n as int, t.len() as int) =~= s@.subrange(i + n, s@.len() as int));
        i = i + n;
    }
    copy_range(s, i, s.len())
}

} // verus!
