//! The flattened device tree image: the strings table, the memory map of
//! the structure block, and the byte layout of the blob with its header.
use vstd::prelude::*;

use crate::bytes::{be_word, byte_or_zero, pack_be_words, pack_words};
use crate::parser::{kind_code, FdtTokenKind, Token};
use crate::table::{
    distinct_keys, find_key, keys_of, lemma_table_map_at, lemma_table_map_push,
    lemma_table_map_update, table_map,
};

verus! {

/// The byte strings of `s` one after the other.
pub open spec fn concat(s: Seq<Seq<u8>>) -> Seq<u8>
    decreases s.len(),
{
    if s.len() == 0 {
        Seq::empty()
    } else {
        concat(s.drop_last()) + s.last()
    }
}

/// Where entry `i` of a strings table starts in the strings block.
pub open spec fn string_offset(names: Seq<Seq<u8>>, i: int) -> int {
    concat(names.subrange(0, i)).len() as int
}

pub proof fn lemma_concat_step(s: Seq<Seq<u8>>, i: int)
    requires
        0 <= i < s.len(),
    ensures
        concat(s.subrange(0, i + 1)) == concat(s.subrange(0, i)) + s[i],
{
    assert(s.subrange(0, i + 1).drop_last() =~= s.subrange(0, i));
}

pub proof fn lemma_concat_prefix(s: Seq<Seq<u8>>, j: int)
    requires
        0 <= j <= s.len(),
    ensures
        concat(s.subrange(0, j)).len() <= concat(s).len(),
        concat(s).subrange(0, concat(s.subrange(0, j)).len() as int) == concat(s.subrange(0, j)),
    decreases s.len() - j,
{
    if j == s.len() {
        assert(s.subrange(0, j) =~= s);
        assert(concat(s).subrange(0, concat(s).len() as int) =~= concat(s));
    } else {
        lemma_concat_prefix(s, j + 1);
        lemma_concat_step(s, j);
        let a = concat(s.subrange(0, j));
        let b = concat(s.subrange(0, j + 1));
        assert(b.subrange(0, a.len() as int) =~= a);
        assert(concat(s).subrange(0, a.len() as int) =~= b.subrange(0, a.len() as int));
    }
}

/// In the strings block, entry `i` stands at its offset.
pub proof fn lemma_string_at_offset(s: Seq<Seq<u8>>, i: int)
    requires
        0 <= i < s.len(),
    ensures
        string_offset(s, i) + s[i].len() <= concat(s).len(),
        concat(s).subrange(string_offset(s, i), string_offset(s, i) + s[i].len()) == s[i],
{
    lemma_concat_prefix(s, i + 1);
    lemma_concat_step(s, i);
    let a = concat(s.subrange(0, i));
    let b = concat(s.subrange(0, i + 1));
    assert(concat(s).subrange(a.len() as int, (a.len() + s[i].len()) as int) =~= b.subrange(
        a.len() as int,
        b.len() as int,
    ));
    assert(b.subrange(a.len() as int, b.len() as int) =~= s[i]);
}

/// The table of property names: each name with its NUL, in the order of
/// registration, at its offset in the strings block.
pub struct Strings {
    pub table: Vec<(Vec<u8>, u32)>,
    pub current_offset: u32,
}

impl Strings {
    /// The names with their NULs, in order.
    pub open spec fn names(&self) -> Seq<Seq<u8>> {
        keys_of(self.table@)
    }

    pub open spec fn wf(&self) -> bool {
        &&& distinct_keys(self.table@)
        &&& forall|i: int|
            0 <= i < self.table@.len() ==> #[trigger] self.table@[i].1 == string_offset(
                self.names(),
                i,
            )
        &&& self.current_offset == concat(self.names()).len()
        &&& forall|i: int|
            0 <= i < self.table@.len() ==> #[trigger] self.table@[i].0@.len() > 0
                && self.table@[i].0@.last() == 0
    }

    pub fn new() -> (r: Strings)
        ensures
            r.wf(),
            r.names() == Seq::<Seq<u8>>::empty(),
    {
        let r = Strings { table: Vec::new(), current_offset: 0 };
        assert(r.names() =~= Seq::<Seq<u8>>::empty());
        r
    }
}

/// `name` with its terminating NUL.
pub open spec fn with_nul(name: Seq<u8>) -> Seq<u8> {
    name.push(0u8)
}

/// The offset that `name` gets in the strings table `names`, and the table
/// after: the offset of its earlier entry, or the end of the block.
pub open spec fn spec_regist_string(names: Seq<Seq<u8>>, name: Seq<u8>) -> (Seq<Seq<u8>>, u32) {
    if names.contains(with_nul(name)) {
        (names, string_offset(names, names.index_of(with_nul(name))) as u32)
    } else {
        (names.push(with_nul(name)), concat(names).len() as u32)
    }
}

/// Whether `name` can be registered without the block outgrowing 32-bit offsets.
pub open spec fn can_regist_string(names: Seq<Seq<u8>>, name: Seq<u8>) -> bool {
    names.contains(with_nul(name)) || concat(names).len() + name.len() + 1 <= u32::MAX
}

/// The node name as the structure block holds it: `/` becomes empty, then a
/// NUL, then zero padding to whole 32-bit cells.
pub open spec fn node_name_cells(name: Seq<u8>) -> Seq<u32> {
    let n = if name == seq![47u8] {
        Seq::empty()
    } else {
        name
    };
    pack_words(with_nul(n))
}

/// The structure block as it grows while the tree is written, the strings
/// table, the memory reservation block, and the label values read while the
/// source is compiled in one pass.
pub struct DtbMmap {
    pub reserve: Vec<u64>,
    pub structure: Vec<u32>,
    pub strings: Strings,
    pub labels: Vec<(Vec<u8>, u32)>,
    pub current_label: Option<Vec<u8>>,
}

/// What a memory map holds, as plain values.
pub struct MmapView {
    pub reserve: Seq<u64>,
    pub structure: Seq<u32>,
    pub strings: Seq<Seq<u8>>,
    pub labels: Map<Seq<u8>, u32>,
    pub current_label: Option<Seq<u8>>,
}

impl View for DtbMmap {
    type V = MmapView;

    open spec fn view(&self) -> MmapView {
        MmapView {
            reserve: self.reserve@,
            structure: self.structure@,
            strings: self.strings.names(),
            labels: table_map(self.labels@),
            current_label: match self.current_label {
                Some(l) => Some(l@),
                None => None,
            },
        }
    }
}

pub open spec fn spec_write_nodekind(v: MmapView, kind: FdtTokenKind) -> MmapView {
    MmapView { structure: v.structure.push(kind_code(kind)), ..v }
}

pub open spec fn spec_write_property(v: MmapView, name: Seq<u8>, data: Seq<u32>, size: u32)
    -> MmapView {
    let (names, off) = spec_regist_string(v.strings, name);
    MmapView {
        structure: v.structure + seq![kind_code(FdtTokenKind::Prop), size, off] + data,
        strings: names,
        ..v
    }
}

pub open spec fn spec_write_nodename(v: MmapView, name: Seq<u8>) -> MmapView {
    MmapView { structure: v.structure + node_name_cells(name), ..v }
}

pub open spec fn spec_mmap_regist_label(v: MmapView, label: Seq<u8>, value: u32) -> MmapView {
    MmapView { labels: v.labels.insert(label, value), ..v }
}

impl DtbMmap {
    pub open spec fn wf(&self) -> bool {
        &&& self.strings.wf()
        &&& distinct_keys(self.labels@)
    }

    /// The label values by label.
    pub open spec fn label_values(&self) -> Map<Seq<u8>, u32> {
        table_map(self.labels@)
    }

    /// An empty image with the reservation block of one zero entry.
    pub fn new() -> (r: DtbMmap)
        ensures
            r.wf(),
            r.reserve@ == seq![0u64, 0u64],
            r.structure@ == Seq::<u32>::empty(),
            r.strings.names() == Seq::<Seq<u8>>::empty(),
            r.label_values() == Map::<Seq<u8>, u32>::empty(),
            r.current_label is None,
    {
        let mut reserve: Vec<u64> = Vec::new();
        reserve.push(0);
        reserve.push(0);
        let r = DtbMmap {
            reserve,
            structure: Vec::new(),
            strings: Strings::new(),
            labels: Vec::new(),
            current_label: None,
        };
        assert(r.reserve@ =~= seq![0u64, 0u64]);
        assert(r.label_values() =~= Map::<Seq<u8>, u32>::empty());
        r
    }

    /// Whether `name` can be registered in the strings table.
    pub fn can_regist_string(&self, name: &[u8]) -> (r: bool)
        requires
            self.wf(),
        ensures
            r == can_regist_string(self.strings.names(), name@),
    {
        let key = nul_terminated(name);
        match find_key(&self.strings.table, key.as_slice()) {
            Some(i) => {
                assert(self.strings.names()[i as int] == key@);
                true
            },
            None => {
                name.len() < 0xffff_ffff && (self.strings.current_offset as u64) + (
                name.len() as u64) + 1 <= 0xffff_ffff
            },
        }
    }

    /// The offset of `name` in the strings block, registering it first if it
    /// is new.
    pub fn regist_string(&mut self, name: &[u8]) -> (r: u32)
        requires
            old(self).wf(),
            can_regist_string(old(self).strings.names(), name@),
        ensures
            final(self).wf(),
            (final(self).strings.names(), r) == spec_regist_string(
                old(self).strings.names(),
                name@,
            ),
            r + name@.len() + 1 <= concat(final(self).strings.names()).len(),
            concat(final(self).strings.names()).subrange(r as int, r + name@.len() + 1)
                == with_nul(name@),
            final(self).reserve == old(self).reserve,
            final(self).structure == old(self).structure,
            final(self).labels == old(self).labels,
            final(self).current_label == old(self).current_label,
    {
        let key = nul_terminated(name);
        let ghost names = self.strings.names();
        match find_key(&self.strings.table, key.as_slice()) {
            Some(i) => {
                proof {
                    assert(names[i as int] == key@);
                    assert(names.contains(key@));
                    let j = names.index_of(key@);
                    assert(names[j] == key@);
                    assert(j == i);
                    lemma_string_at_offset(names, i as int);
                }
                self.strings.table[i].1
            },
            None => {
                let off = self.strings.current_offset;
                let len = key.len() as u32;
                let ghost key_view = key@;
                proof {
                    lemma_table_map_push(self.strings.table@, key, off);
                }
                self.strings.table.push((key, off));
                self.strings.current_offset = off + len;
                proof {
                    let nn = self.strings.names();
                    assert(nn =~= names.push(key_view));
                    assert(nn.drop_last() =~= names);
                    assert(concat(nn) == concat(names) + key_view);
                    assert forall|k: int|
                        0 <= k < self.strings.table@.len() implies #[trigger] self.strings.table@[k].1
                        == string_offset(nn, k) by {
                        assert(nn.subrange(0, k) =~= if k < names.len() {
                            names.subrange(0, k)
                        } else {
                            names
                        });
                        if k == names.len() {
                            assert(names.subrange(0, k) =~= names);
                        }
                    }
                    lemma_string_at_offset(nn, names.len() as int);
                    assert(nn.subrange(0, names.len() as int) =~= names);
                    assert(key_view.last() == 0);
                    assert forall|k: int|
                        0 <= k < self.strings.table@.len() implies #[trigger] self.strings.table@[k].0@.len()
                        > 0 && self.strings.table@[k].0@.last() == 0 by {
                        if k < names.len() {
                            assert(self.strings.table@[k] == old(self).strings.table@[k]);
                        }
                    }
                }
                off
            },
        }
    }

    /// Appends the code of a token kind to the structure block.
    pub fn write_nodekind(&mut self, kind: FdtTokenKind)
        ensures
            final(self)@ == spec_write_nodekind(old(self)@, kind),
            old(self).wf() ==> final(self).wf(),
            final(self).structure@ == old(self).structure@.push(kind_code(kind)),
            final(self).reserve == old(self).reserve,
            final(self).strings == old(self).strings,
            final(self).labels == old(self).labels,
            final(self).current_label == old(self).current_label,
    {
        self.structure.push(kind.code());
        assert(self@ =~= spec_write_nodekind(old(self)@, kind));
    }

    /// Appends a property: its token, the data size, the offset of its name in
    /// the strings block, and the data cells.
    pub fn write_property(&mut self, name: &[u8], data: &[u32], size: u32)
        requires
            old(self).wf(),
            can_regist_string(old(self).strings.names(), name@),
        ensures
            final(self).wf(),
            final(self)@ == spec_write_property(old(self)@, name@, data@, size),
            final(self).strings.names() == spec_regist_string(
                old(self).strings.names(),
                name@,
            ).0,
            final(self).structure@ == old(self).structure@ + seq![
                kind_code(FdtTokenKind::Prop),
                size,
                spec_regist_string(old(self).strings.names(), name@).1,
            ] + data@,
            final(self).reserve == old(self).reserve,
            final(self).labels == old(self).labels,
            final(self).current_label == old(self).current_label,
    {
        self.write_nodekind(FdtTokenKind::Prop);
        let offset = self.regist_string(name);
        self.structure.push(size);
        self.structure.push(offset);
        let mut i: usize = 0;
        let ghost base = self.structure@;
        let ghost snap = *self;
        while i < data.len()
            invariant
                i <= data.len(),
                self.strings == snap.strings,
                self.reserve == snap.reserve,
                self.labels == snap.labels,
                self.current_label == snap.current_label,
                self.structure@ == base + data@.subrange(0, i as int),
            decreases data.len() - i,
        {
            self.structure.push(data[i]);
            i = i + 1;
            assert(self.structure@ =~= base + data@.subrange(0, i as int));
        }
        assert(data@.subrange(0, data@.len() as int) =~= data@);
        assert(self.structure@ =~= old(self).structure@ + seq![
            kind_code(FdtTokenKind::Prop),
            size,
            offset,
        ] + data@);
        assert(self@ =~= spec_write_property(old(self)@, name@, data@, size));
    }

    /// Appends a node name: `/` is written as the empty name; the bytes and a
    /// NUL are padded with zeros to whole cells.
    pub fn write_nodename(&mut self, name: &[u8])
        ensures
            final(self)@ == spec_write_nodename(old(self)@, name@),
            old(self).wf() ==> final(self).wf(),
            final(self).structure@ == old(self).structure@ + node_name_cells(name@),
            final(self).reserve == old(self).reserve,
            final(self).strings == old(self).strings,
            final(self).labels == old(self).labels,
            final(self).current_label == old(self).current_label,
    {
        let is_root = name.len() == 1 && name[0] == 47;
        proof {
            if is_root {
                assert(name@ =~= seq![47u8]);
            }
        }
        let bytes = if is_root {
            let mut v: Vec<u8> = Vec::new();
            v.push(0u8);
            assert(v@ =~= with_nul(Seq::empty()));
            v
        } else {
            nul_terminated(name)
        };
        let cells = pack_be_words(bytes.as_slice());
        let mut i: usize = 0;
        let ghost base = self.structure@;
        let ghost snap = *self;
        while i < cells.len()
            invariant
                i <= cells.len(),
                self.strings == snap.strings,
                self.reserve == snap.reserve,
                self.labels == snap.labels,
                self.current_label == snap.current_label,
                self.structure@ == base + cells@.subrange(0, i as int),
            decreases cells.len() - i,
        {
            self.structure.push(cells[i]);
            i = i + 1;
            assert(self.structure@ =~= base + cells@.subrange(0, i as int));
        }
        assert(cells@.subrange(0, cells@.len() as int) =~= cells@);
        assert(self@ =~= spec_write_nodename(old(self)@, name@));
    }

    /// Records the value of a label; a label given twice keeps the last value.
    pub fn regist_label(&mut self, label: Vec<u8>, value: u32)
        requires
            old(self).wf(),
        ensures
            final(self).wf(),
            final(self)@ == spec_mmap_regist_label(old(self)@, label@, value),
    {
        let ghost k = label@;
        match find_key(&self.labels, label.as_slice()) {
            Some(i) => {
                proof {
                    lemma_table_map_update(self.labels@, i as int, label, value);
                }
                self.labels.set(i, (label, value));
            },
            None => {
                proof {
                    lemma_table_map_push(self.labels@, label, value);
                }
                self.labels.push((label, value));
            },
        }
        assert(self@ =~= spec_mmap_regist_label(old(self)@, k, value));
    }

    /// The value of a label, if it has one.
    pub fn label_value(&self, label: &[u8]) -> (r: Option<u32>)
        requires
            self.wf(),
        ensures
            r == (if self@.labels.contains_key(label@) {
                Some(self@.labels[label@])
            } else {
                None::<u32>
            }),
    {
        match find_key(&self.labels, label) {
            Some(i) => {
                proof {
                    lemma_table_map_at(self.labels@, i as int);
                }
                Some(self.labels[i].1)
            },
            None => None,
        }
    }
}

/// `name` followed by a NUL.
pub fn nul_terminated(name: &[u8]) -> (r: Vec<u8>)
    ensures
        r@ == with_nul(name@),
{
    let mut r = crate::bytes::copy_bytes(name);
    r.push(0u8);
    r
}

/// Writes the tree into the memory map: a node becomes a begin and an end
/// token; anything else writes nothing.
pub fn create_mmap(tree: Token, mmap: DtbMmap) -> (r: DtbMmap)
    ensures
        r.structure@ == if tree.kind == FdtTokenKind::BeginNode {
            mmap.structure@ + seq![
                kind_code(FdtTokenKind::BeginNode),
                kind_code(FdtTokenKind::EndNode),
            ]
        } else {
            mmap.structure@
        },
        r.reserve == mmap.reserve,
        r.strings == mmap.strings,
        r.labels == mmap.labels,
        r.current_label == mmap.current_label,
{
    let mut mmap = mmap;
    match tree.kind {
        FdtTokenKind::BeginNode => {
            mmap.write_nodekind(FdtTokenKind::BeginNode);
            mmap.write_nodekind(FdtTokenKind::EndNode);
        },
        _ => {},
    }
    mmap
}

/// The header of a flattened device tree blob.
#[derive(Clone, Copy, PartialEq, Eq, Structural, Debug)]
pub struct FdtHeader {
    pub magic: u32,
    pub totalsize: u32,
    pub off_dt_struct: u32,
    pub off_dt_strings: u32,
    pub off_mem_rsvmap: u32,
    pub version: u32,
    pub last_comp_version: u32,
    pub boot_cpuid_phys: u32,
    pub size_dt_strings: u32,
    pub size_dt_struct: u32,
}

/// The size of the header in bytes.
pub open spec fn header_size() -> int {
    40
}

/// The header for blocks of the given byte sizes laid out as header,
/// reservation block, structure block, strings block.
pub open spec fn spec_header(rsv: int, strs: int, st: int) -> FdtHeader {
    FdtHeader {
        magic: 0xd00dfeed,
        totalsize: (header_size() + rsv + strs + st) as u32,
        off_dt_struct: (header_size() + rsv) as u32,
        off_dt_strings: (header_size() + rsv + st) as u32,
        off_mem_rsvmap: header_size() as u32,
        version: 17,
        last_comp_version: 16,
        boot_cpuid_phys: 0,
        size_dt_strings: strs as u32,
        size_dt_struct: st as u32,
    }
}

/// The big-endian bytes of a 32-bit value.
pub open spec fn be_bytes32(w: u32) -> Seq<u8> {
    seq![
        (w / 16777216) as u8,
        ((w / 65536) % 256) as u8,
        ((w / 256) % 256) as u8,
        (w % 256) as u8,
    ]
}

/// The big-endian bytes of a 64-bit value.
pub open spec fn be_bytes64(x: u64) -> Seq<u8> {
    be_bytes32((x / 4294967296) as u32) + be_bytes32((x % 4294967296) as u32)
}

pub open spec fn cells_bytes(ws: Seq<u32>) -> Seq<u8>
    decreases ws.len(),
{
    if ws.len() == 0 {
        Seq::empty()
    } else {
        cells_bytes(ws.drop_last()) + be_bytes32(ws.last())
    }
}

pub open spec fn reserve_bytes(rs: Seq<u64>) -> Seq<u8>
    decreases rs.len(),
{
    if rs.len() == 0 {
        Seq::empty()
    } else {
        reserve_bytes(rs.drop_last()) + be_bytes64(rs.last())
    }
}

pub open spec fn header_bytes(h: FdtHeader) -> Seq<u8> {
    be_bytes32(h.magic) + be_bytes32(h.totalsize) + be_bytes32(h.off_dt_struct) + be_bytes32(
        h.off_dt_strings,
    ) + be_bytes32(h.off_mem_rsvmap) + be_bytes32(h.version) + be_bytes32(h.last_comp_version)
        + be_bytes32(h.boot_cpuid_phys) + be_bytes32(h.size_dt_strings) + be_bytes32(
        h.size_dt_struct,
    )
}

/// The blob of a reservation block, a structure block and a strings block.
pub open spec fn image_bytes(reserve: Seq<u64>, structure: Seq<u32>, strings: Seq<u8>) -> Seq<
    u8,
> {
    let r = reserve_bytes(reserve);
    let s = cells_bytes(structure);
    header_bytes(spec_header(r.len() as int, strings.len() as int, s.len() as int)) + r + s
        + strings
}

/// The blob of a memory map.
pub open spec fn dtb_image(m: DtbMmap) -> Seq<u8> {
    image_bytes(m.reserve@, m.structure@, concat(m.strings.names()))
}

/// Whether the blob of the blocks fits in 32-bit sizes.
pub open spec fn image_fits(reserve: Seq<u64>, structure: Seq<u32>, strings: Seq<u8>) -> bool {
    header_size() + 8 * reserve.len() + 4 * structure.len() + strings.len() <= u32::MAX
}

pub proof fn lemma_cells_bytes_len(ws: Seq<u32>)
    ensures
        cells_bytes(ws).len() == 4 * ws.len(),
    decreases ws.len(),
{
    if ws.len() > 0 {
        lemma_cells_bytes_len(ws.drop_last());
    }
}

pub proof fn lemma_reserve_bytes_len(rs: Seq<u64>)
    ensures
        reserve_bytes(rs).len() == 8 * rs.len(),
    decreases rs.len(),
{
    if rs.len() > 0 {
        lemma_reserve_bytes_len(rs.drop_last());
    }
}

fn push_be32(out: &mut Vec<u8>, w: u32)
    ensures
        final(out)@ == old(out)@ + be_bytes32(w),
{
    out.push((w / 16777216) as u8);
    out.push(((w / 65536) % 256) as u8);
    out.push(((w / 256) % 256) as u8);
    out.push((w % 256) as u8);
    assert(out@ =~= old(out)@ + be_bytes32(w));
}

fn push_be64(out: &mut Vec<u8>, x: u64)
    ensures
        final(out)@ == old(out)@ + be_bytes64(x),
{
    push_be32(out, (x / 4294967296) as u32);
    push_be32(out, (x % 4294967296) as u32);
    assert(out@ =~= old(out)@ + be_bytes64(x));
}

impl DtbMmap {
    /// The header of the blob of this map.
    pub fn header(&self) -> (h: FdtHeader)
        requires
            self.wf(),
            image_fits(self.reserve@, self.structure@, concat(self.strings.names())),
        ensures
            h == spec_header(
                (8 * self.reserve@.len()) as int,
                concat(self.strings.names()).len() as int,
                (4 * self.structure@.len()) as int,
            ),
    {
        let rsv = (self.reserve.len() * 8) as u32;
        let strs = self.strings.current_offset;
        let st = (self.structure.len() * 4) as u32;
        FdtHeader {
            magic: 0xd00dfeed,
            totalsize: 40 + rsv + strs + st,
            off_dt_struct: 40 + rsv,
            off_dt_strings: 40 + rsv + st,
            off_mem_rsvmap: 40,
            version: 17,
            last_comp_version: 16,
            boot_cpuid_phys: 0,
            size_dt_strings: strs,
            size_dt_struct: st,
        }
    }
}

/// The bytes of a flattened device tree blob: the header, the reservation
/// block, the structure block and the strings block, all big-endian.
pub fn dtb_bytes(mmap: &DtbMmap) -> (r: Vec<u8>)
    requires
        mmap.wf(),
        image_fits(mmap.reserve@, mmap.structure@, concat(mmap.strings.names())),
    ensures
        r@ == dtb_image(*mmap),
{
    let h = mmap.header();
    proof {
        lemma_cells_bytes_len(mmap.structure@);
        lemma_reserve_bytes_len(mmap.reserve@);
    }
    let mut out: Vec<u8> = Vec::new();
    push_be32(&mut out, h.magic);
    push_be32(&mut out, h.totalsize);
    push_be32(&mut out, h.off_dt_struct);
    push_be32(&mut out, h.off_dt_strings);
    push_be32(&mut out, h.off_mem_rsvmap);
    push_be32(&mut out, h.version);
    push_be32(&mut out, h.last_comp_version);
    push_be32(&mut out, h.boot_cpuid_phys);
    push_be32(&mut out, h.size_dt_strings);
    push_be32(&mut out, h.size_dt_struct);
    assert(out@ =~= header_bytes(h));
    let ghost head = out@;
    let mut i: usize = 0;
    while i < mmap.reserve.len()
        invariant
            i <= mmap.reserve@.len(),
            out@ == head + reserve_bytes(mmap.reserve@.subrange(0, i as int)),
        decreases mmap.reserve.len() - i,
    {
        push_be64(&mut out, mmap.reserve[i]);
        assert(mmap.reserve@.subrange(0, i + 1).drop_last() =~= mmap.reserve@.subrange(
            0,
            i as int,
        ));
        i = i + 1;
    }
    assert(mmap.reserve@.subrange(0, i as int) =~= mmap.reserve@);
    let ghost head2 = out@;
    let mut j: usize = 0;
    while j < mmap.structure.len()
        invariant
            j <= mmap.structure@.len(),
            out@ == head2 + cells_bytes(mmap.structure@.subrange(0, j as int)),
        decreases mmap.structure.len() - j,
    {
        push_be32(&mut out, mmap.structure[j]);
        assert(mmap.structure@.subrange(0, j + 1).drop_last() =~= mmap.structure@.subrange(
            0,
            j as int,
        ));
        j = j + 1;
    }
    assert(mmap.structure@.subrange(0, j as int) =~= mmap.structure@);
    let ghost head3 = out@;
    let ghost names = mmap.strings.names();
    let mut k: usize = 0;
    while k < mmap.strings.table.len()
        invariant
            k <= mmap.strings.table@.len(),
            names == mmap.strings.names(),
            out@ == head3 + concat(names.subrange(0, k as int)),
        decreases mmap.strings.table.len() - k,
    {
        let key = &mmap.strings.table[k].0;
        let ghost before = out@;
        let mut b: usize = 0;
        while b < key.len()
            invariant
                b <= key@.len(),
                out@ == before + key@.subrange(0, b as int),
            decreases key.len() - b,
        {
            out.push(key[b]);
            b = b + 1;
            assert(out@ =~= before + key@.subrange(0, b as int));
        }
        assert(key@.subrange(0, key@.len() as int) =~= key@);
        proof {
            lemma_concat_step(names, k as int);
            assert(names[k as int] == key@);
        }
        k = k + 1;
    }
    assert(names.subrange(0, k as int) =~= names);
    out
}

/// The blob of a tree: the tree written into an empty map whose reservation
/// block holds one zero entry.
pub fn create_dtb(tree: Token) -> (r: Vec<u8>)
    ensures
        r@ == image_bytes(
            seq![0u64, 0u64],
            if tree.kind == FdtTokenKind::BeginNode {
                seq![kind_code(FdtTokenKind::BeginNode), kind_code(FdtTokenKind::EndNode)]
            } else {
                Seq::empty()
            },
            Seq::empty(),
        ),
{
    let mmap = DtbMmap::new();
    let is_node = tree.kind == FdtTokenKind::BeginNode;
    let mmap = create_mmap(tree, mmap);
    proof {
        assert(concat(mmap.strings.names()) =~= Seq::<u8>::empty());
        if is_node {
            assert(mmap.structure@ =~= seq![1u32, 2u32]);
        } else {
            assert(mmap.structure@ =~= Seq::<u32>::empty());
        }
    }
    dtb_bytes(&mmap)
}

/// A cell written big-endian reads back as the same cell.
pub proof fn lemma_be_bytes32_roundtrip(w: u32)
    ensures
        be_word(be_bytes32(w)[0], be_bytes32(w)[1], be_bytes32(w)[2], be_bytes32(w)[3]) == w,
{
    let a = w / 16777216;
    let b = (w / 65536) % 256;
    let c = (w / 256) % 256;
    let d = w % 256;
    assert(a < 256);
    assert(w == a * 16777216 + b * 65536 + c * 256 + d) by (nonlinear_arith)
        requires
            a == w / 16777216,
            b == (w / 65536) % 256,
            c == (w / 256) % 256,
            d == w % 256,
            w <= 0xffff_ffff,
    ;
}

/// The bytes of cell `i` in a run of big-endian cells.
proof fn lemma_cells_bytes_at(ws: Seq<u32>, i: int, k: int)
    requires
        0 <= i < ws.len(),
        0 <= k < 4,
    ensures
        cells_bytes(ws).len() == 4 * ws.len(),
        cells_bytes(ws)[4 * i + k] == be_bytes32(ws[i])[k],
    decreases ws.len(),
{
    lemma_cells_bytes_len(ws);
    lemma_cells_bytes_len(ws.drop_last());
    if i < ws.len() - 1 {
        lemma_cells_bytes_at(ws.drop_last(), i, k);
    }
}

/// Bytes packed into cells and written back big-endian are the bytes again,
/// followed by zeros up to a whole cell.
pub proof fn lemma_pack_words_roundtrip(b: Seq<u8>)
    ensures
        cells_bytes(pack_words(b)).len() == 4 * ((b.len() + 3) / 4),
        cells_bytes(pack_words(b)).subrange(0, b.len() as int) == b,
        forall|i: int|
            b.len() <= i < cells_bytes(pack_words(b)).len() ==> #[trigger] cells_bytes(
                pack_words(b),
            )[i] == 0,
{
    let ws = pack_words(b);
    lemma_cells_bytes_len(ws);
    assert forall|i: int| 0 <= i < cells_bytes(ws).len() implies #[trigger] cells_bytes(ws)[i]
        == byte_or_zero(b, i) by {
        let q = i / 4;
        let k = i % 4;
        lemma_cells_bytes_at(ws, q, k);
        let w = ws[q];
        let b0 = byte_or_zero(b, 4 * q);
        let b1 = byte_or_zero(b, 4 * q + 1);
        let b2 = byte_or_zero(b, 4 * q + 2);
        let b3 = byte_or_zero(b, 4 * q + 3);
        assert(w == be_word(b0, b1, b2, b3));
        assert(w / 16777216 == b0 && (w / 65536) % 256 == b1 && (w / 256) % 256 == b2 && w
            % 256 == b3) by (nonlinear_arith)
            requires
                w == b0 * 16777216 + b1 * 65536 + b2 * 256 + b3,
                b0 < 256,
                b1 < 256,
                b2 < 256,
                b3 < 256,
                b0 >= 0,
                b1 >= 0,
                b2 >= 0,
                b3 >= 0,
        ;
        assert(i == 4 * q + k);
    }
    assert(cells_bytes(ws).subrange(0, b.len() as int) =~= b);
}

/// The layout of a blob: its length is the header's total size, and the
/// magic, the reservation block, the structure block and the strings block
/// stand at the offsets and with the sizes that the header gives.
pub proof fn lemma_image_layout(reserve: Seq<u64>, structure: Seq<u32>, strings: Seq<u8>)
    requires
        image_fits(reserve, structure, strings),
    ensures
        ({
            let img = image_bytes(reserve, structure, strings);
            let h = spec_header(
                (8 * reserve.len()) as int,
                strings.len() as int,
                (4 * structure.len()) as int,
            );
            &&& img.len() == h.totalsize
            &&& img.subrange(0, 4) == be_bytes32(0xd00dfeed)
            &&& img.subrange(h.off_mem_rsvmap as int, h.off_dt_struct as int) == reserve_bytes(
                reserve,
            )
            &&& img.subrange(h.off_dt_struct as int, h.off_dt_struct + h.size_dt_struct)
                == cells_bytes(structure)
            &&& img.subrange(h.off_dt_strings as int, h.off_dt_strings + h.size_dt_strings)
                == strings
        }),
{
    lemma_cells_bytes_len(structure);
    lemma_reserve_bytes_len(reserve);
    let img = image_bytes(reserve, structure, strings);
    let h = spec_header(
        (8 * reserve.len()) as int,
        strings.len() as int,
        (4 * structure.len()) as int,
    );
    let hb = header_bytes(h);
    assert(hb.len() == 40);
    let r = reserve_bytes(reserve);
    let s = cells_bytes(structure);
    assert(img == hb + r + s + strings);
    assert(img.subrange(0, 4) =~= be_bytes32(0xd00dfeed));
    let rl = r.len() as int;
    let sl = s.len() as int;
    assert(img.subrange(40, 40 + rl) =~= r);
    assert(img.subrange(40 + rl, 40 + rl + sl) =~= s);
    assert(img.subrange(40 + rl + sl, img.len() as int) =~= strings);
}

/// Registering a name a second time gives the offset of the first time and
/// leaves the table as it was; the second call is always allowed, as the name
/// is then in the table.
pub proof fn lemma_regist_string_idempotent(names: Seq<Seq<u8>>, name: Seq<u8>)
    requires
        names.no_duplicates(),
    ensures
        can_regist_string(spec_regist_string(names, name).0, name),
        spec_regist_string(spec_regist_string(names, name).0, name) == spec_regist_string(
            names,
            name,
        ),
        spec_regist_string(names, name).0.no_duplicates(),
{
    let key = with_nul(name);
    if names.contains(key) {
        let i = names.index_of(key);
        assert(names[i] == key);
    }
    if !names.contains(key) {
        let nn = names.push(key);
        assert(nn[names.len() as int] == key);
        assert(nn.contains(key));
        let j = nn.index_of(key);
        assert(nn[j] == key);
        if j < names.len() {
            assert(names[j] == key);
        }
        assert(j == names.len());
        assert(nn.subrange(0, j) =~= names);
    }
}

/// A node name written into the structure block and read back big-endian is
/// the name (empty for `/`), a NUL, and zeros up to a whole cell.
pub proof fn lemma_node_name_roundtrip(name: Seq<u8>)
    ensures
        ({
            let n = if name == seq![47u8] {
                Seq::empty()
            } else {
                name
            };
            let b = cells_bytes(node_name_cells(name));
            &&& b.len() == 4 * ((n.len() + 4) / 4)
            &&& b.subrange(0, n.len() as int) == n
            &&& forall|i: int| n.len() <= i < b.len() ==> #[trigger] b[i] == 0
        }),
{
    let n = if name == seq![47u8] {
        Seq::empty()
    } else {
        name
    };
    let w = with_nul(n);
    lemma_pack_words_roundtrip(w);
    let b = cells_bytes(pack_words(w));
    assert(b.subrange(0, n.len() as int) =~= b.subrange(0, w.len() as int).subrange(
        0,
        n.len() as int,
    ));
    assert(b.subrange(0, w.len() as int).subrange(0, n.len() as int) =~= n);
    assert forall|i: int| n.len() <= i < b.len() implies #[trigger] b[i] == 0 by {
        if i == n.len() {
            assert(b[i] == b.subrange(0, w.len() as int)[i]);
        }
    }
}

/// The entries of a well-formed strings table: each name ends with its NUL,
/// the first starts at offset 0, each next one starts where the one before
/// ends, and the last ends at `current_offset`; so the entries cover the
/// strings block without overlap.
pub proof fn lemma_strings_layout(s: Strings)
    requires
        s.wf(),
    ensures
        forall|i: int|
            0 <= i < s.table@.len() ==> #[trigger] s.table@[i].0@.len() > 0
                && s.table@[i].0@.last() == 0,
        s.table@.len() > 0 ==> s.table@[0].1 == 0,
        forall|i: int|
            0 <= i < s.table@.len() - 1 ==> #[trigger] s.table@[i + 1].1 == s.table@[i].1
                + s.table@[i].0@.len(),
        s.table@.len() == 0 ==> s.current_offset == 0,
        s.table@.len() > 0 ==> s.current_offset == s.table@[s.table@.len() - 1].1
            + s.table@[s.table@.len() - 1].0@.len(),
{
    let names = s.names();
    let n = s.table@.len();
    if n > 0 {
        assert(s.table@[0].1 == string_offset(names, 0));
        assert(names.subrange(0, 0) =~= Seq::<Seq<u8>>::empty());
    } else {
        assert(names =~= Seq::<Seq<u8>>::empty());
    }
    assert forall|i: int| 0 <= i < s.table@.len() - 1 implies #[trigger] s.table@[i + 1].1
        == s.table@[i].1 + s.table@[i].0@.len() by {
        assert(s.table@[i + 1].1 == string_offset(names, i + 1));
        assert(s.table@[i].1 == string_offset(names, i));
        lemma_concat_step(names, i);
        assert(names[i] == s.table@[i].0@);
    }
    if n > 0 {
        assert(s.table@[n - 1].1 == string_offset(names, n - 1));
        lemma_concat_step(names, n - 1);
        assert(names.subrange(0, n as int) =~= names);
        assert(names[n - 1] == s.table@[n - 1].0@);
    }
}

/// The ten header fields stand in the header in this order, one big-endian
/// cell each: magic, totalsize, off_dt_struct, off_dt_strings,
/// off_mem_rsvmap, version, last_comp_version, boot_cpuid_phys,
/// size_dt_strings, size_dt_struct.
pub proof fn lemma_header_field_order(h: FdtHeader)
    ensures
        header_bytes(h).len() == 40,
        header_bytes(h).subrange(0, 4) == be_bytes32(h.magic),
        header_bytes(h).subrange(4, 8) == be_bytes32(h.totalsize),
        header_bytes(h).subrange(8, 12) == be_bytes32(h.off_dt_struct),
        header_bytes(h).subrange(12, 16) == be_bytes32(h.off_dt_strings),
        header_bytes(h).subrange(16, 20) == be_bytes32(h.off_mem_rsvmap),
        header_bytes(h).subrange(20, 24) == be_bytes32(h.version),
        header_bytes(h).subrange(24, 28) == be_bytes32(h.last_comp_version),
        header_bytes(h).subrange(28, 32) == be_bytes32(h.boot_cpuid_phys),
        header_bytes(h).subrange(32, 36) == be_bytes32(h.size_dt_strings),
        header_bytes(h).subrange(36, 40) == be_bytes32(h.size_dt_struct),
{
    let b = header_bytes(h);
    assert(b.subrange(0, 4) =~= be_bytes32(h.magic));
    assert(b.subrange(4, 8) =~= be_bytes32(h.totalsize));
    assert(b.subrange(8, 12) =~= be_bytes32(h.off_dt_struct));
    assert(b.subrange(12, 16) =~= be_bytes32(h.off_dt_strings));
    assert(b.subrange(16, 20) =~= be_bytes32(h.off_mem_rsvmap));
    assert(b.subrange(20, 24) =~= be_bytes32(h.version));
    assert(b.subrange(24, 28) =~= be_bytes32(h.last_comp_version));
    assert(b.subrange(28, 32) =~= be_bytes32(h.boot_cpuid_phys));
    assert(b.subrange(32, 36) =~= be_bytes32(h.size_dt_strings));
    assert(b.subrange(36, 40) =~= be_bytes32(h.size_dt_struct));
}

/// The big-endian cell at byte `k` of `b`.
pub open spec fn cell_at(b: Seq<u8>, k: int) -> int {
    be_word(b[k], b[k + 1], b[k + 2], b[k + 3])
}

/// Read back from a blob, its header tells the truth about the blob: the
/// first cell is the magic, the second the blob's length, the third where
/// the structure block starts (after the header and the reservation block),
/// the fourth where the strings block starts (at the end, minus its
/// length), the fifth where the reservation block starts, then version 17,
/// last compatible version 16, boot CPU 0, and the two block sizes.
pub proof fn lemma_image_header_reads_back(reserve: Seq<u64>, structure: Seq<u32>, strings: Seq<
    u8,
>)
    requires
        image_fits(reserve, structure, strings),
    ensures
        ({
            let img = image_bytes(reserve, structure, strings);
            &&& img.len() >= 40
            &&& cell_at(img, 0) == 0xd00dfeed
            &&& cell_at(img, 4) == img.len()
            &&& cell_at(img, 8) == 40 + 8 * reserve.len()
            &&& cell_at(img, 12) == img.len() - strings.len()
            &&& cell_at(img, 16) == 40
            &&& cell_at(img, 20) == 17
            &&& cell_at(img, 24) == 16
            &&& cell_at(img, 28) == 0
            &&& cell_at(img, 32) == strings.len()
            &&& cell_at(img, 36) == 4 * structure.len()
        }),
{
    lemma_cells_bytes_len(structure);
    lemma_reserve_bytes_len(reserve);
    let img = image_bytes(reserve, structure, strings);
    let h = spec_header(
        (8 * reserve.len()) as int,
        strings.len() as int,
        (4 * structure.len()) as int,
    );
    lemma_header_field_order(h);
    lemma_image_layout(reserve, structure, strings);
    let hb = header_bytes(h);
    assert(img.subrange(0, 40) =~= hb);
    assert forall|k: int| 0 <= k < 40 implies img[k] == hb[k] by {
        assert(img.subrange(0, 40)[k] == img[k]);
    }
    lemma_be_bytes32_roundtrip(h.magic);
    lemma_be_bytes32_roundtrip(h.totalsize);
    lemma_be_bytes32_roundtrip(h.off_dt_struct);
    lemma_be_bytes32_roundtrip(h.off_dt_strings);
    lemma_be_bytes32_roundtrip(h.off_mem_rsvmap);
    lemma_be_bytes32_roundtrip(h.version);
    lemma_be_bytes32_roundtrip(h.last_comp_version);
    lemma_be_bytes32_roundtrip(h.boot_cpuid_phys);
    lemma_be_bytes32_roundtrip(h.size_dt_strings);
    lemma_be_bytes32_roundtrip(h.size_dt_struct);
    assert(hb.subrange(4, 8)[0] == hb[4]);
    assert forall|k: int, j: int| 0 <= k < 10 && 0 <= j < 4 implies #[trigger] hb[4 * k + j]
        == hb.subrange(4 * k, 4 * k + 4)[j] by {}
    assert(cell_at(img, 0) == h.magic) by {
        assert(hb[0] == hb.subrange(0, 4)[0] && hb[1] == hb.subrange(0, 4)[1] && hb[2] == hb.subrange(0, 4)[2] && hb[3] == hb.subrange(0, 4)[3]);
    }
    assert(cell_at(img, 4) == h.totalsize) by {
        assert(hb[4] == hb.subrange(4, 8)[0] && hb[5] == hb.subrange(4, 8)[1] && hb[6] == hb.subrange(4, 8)[2] && hb[7] == hb.subrange(4, 8)[3]);
    }
    assert(cell_at(img, 8) == h.off_dt_struct) by {
        assert(hb[8] == hb.subrange(8, 12)[0] && hb[9] == hb.subrange(8, 12)[1] && hb[10] == hb.subrange(8, 12)[2] && hb[11] == hb.subrange(8, 12)[3]);
    }
    assert(cell_at(img, 12) == h.off_dt_strings) by {
        assert(hb[12] == hb.subrange(12, 16)[0] && hb[13] == hb.subrange(12, 16)[1] && hb[14] == hb.subrange(12, 16)[2] && hb[15] == hb.subrange(12, 16)[3]);
    }
    assert(cell_at(img, 16) == h.off_mem_rsvmap) by {
        assert(hb[16] == hb.subrange(16, 20)[0] && hb[17] == hb.subrange(16, 20)[1] && hb[18] == hb.subrange(16, 20)[2] && hb[19] == hb.subrange(16, 20)[3]);
    }
    assert(cell_at(img, 20) == h.version) by {
        assert(hb[20] == hb.subrange(20, 24)[0] && hb[21] == hb.subrange(20, 24)[1] && hb[22] == hb.subrange(20, 24)[2] && hb[23] == hb.subrange(20, 24)[3]);
    }
    assert(cell_at(img, 24) == h.last_comp_version) by {
        assert(hb[24] == hb.subrange(24, 28)[0] && hb[25] == hb.subrange(24, 28)[1] && hb[26] == hb.subrange(24, 28)[2] && hb[27] == hb.subrange(24, 28)[3]);
    }
    assert(cell_at(img, 28) == h.boot_cpuid_phys) by {
        assert(hb[28] == hb.subrange(28, 32)[0] && hb[29] == hb.subrange(28, 32)[1] && hb[30] == hb.subrange(28, 32)[2] && hb[31] == hb.subrange(28, 32)[3]);
    }
    assert(cell_at(img, 32) == h.size_dt_strings) by {
        assert(hb[32] == hb.subrange(32, 36)[0] && hb[33] == hb.subrange(32, 36)[1] && hb[34] == hb.subrange(32, 36)[2] && hb[35] == hb.subrange(32, 36)[3]);
    }
    assert(cell_at(img, 36) == h.size_dt_struct) by {
        assert(hb[36] == hb.subrange(36, 40)[0] && hb[37] == hb.subrange(36, 40)[1] && hb[38] == hb.subrange(36, 40)[2] && hb[39] == hb.subrange(36, 40)[3]);
    }
}

} // verus!
