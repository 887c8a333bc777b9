use dtbc::generate::{create_dtb, create_mmap, dtb_bytes, DtbMmap, FdtHeader, Strings};
use dtbc::parser::{FdtTokenKind, Token};

fn be(words: &[u32]) -> Vec<u8> {
    words.iter().flat_map(|w| w.to_be_bytes()).collect()
}

#[test]
fn strings_table_starts_empty() {
    let s = Strings::new();
    assert!(s.table.is_empty());
    assert_eq!(s.current_offset, 0);
}

#[test]
fn strings_get_offsets_in_order() {
    let mut m = DtbMmap::new();
    assert_eq!(m.regist_string(b"compatible"), 0);
    assert_eq!(m.regist_string(b"reg"), 11);
    assert_eq!(m.regist_string(b"compatible"), 0);
    assert_eq!(m.regist_string(b"status"), 15);
    assert_eq!(m.strings.current_offset, 22);
    assert!(m.can_regist_string(b"x"));
}

#[test]
fn node_kinds_are_written_as_codes() {
    let mut m = DtbMmap::new();
    m.write_nodekind(FdtTokenKind::BeginNode);
    m.write_nodekind(FdtTokenKind::EndNode);
    m.write_nodekind(FdtTokenKind::Prop);
    m.write_nodekind(FdtTokenKind::Nop);
    m.write_nodekind(FdtTokenKind::End);
    assert_eq!(m.structure, vec![1, 2, 3, 4, 9]);
}

#[test]
fn node_names_are_padded_cells() {
    let mut m = DtbMmap::new();
    m.write_nodename(b"/");
    assert_eq!(m.structure, vec![0]);
    m.write_nodename(b"cpu");
    assert_eq!(m.structure, vec![0, 0x6370_7500]);
    m.write_nodename(b"cpus");
    assert_eq!(m.structure, vec![0, 0x6370_7500, 0x6370_7573, 0]);
}

#[test]
fn property_layout() {
    let mut m = DtbMmap::new();
    m.write_property(b"reg", &[0x10, 0x20], 8);
    m.write_property(b"status", &[], 0);
    m.write_property(b"reg", &[7], 4);
    assert_eq!(m.structure, vec![3, 8, 0, 0x10, 0x20, 3, 0, 4, 3, 4, 0, 7]);
    assert_eq!(m.strings.current_offset, 11);
}

#[test]
fn labels_keep_last_value() {
    let mut m = DtbMmap::new();
    assert_eq!(m.label_value(b"cpus"), None);
    m.regist_label(b"cpus".to_vec(), 1);
    m.regist_label(b"cpus".to_vec(), 2);
    assert_eq!(m.label_value(b"cpus"), Some(2));
}

#[test]
fn create_mmap_writes_begin_and_end_for_a_node() {
    let node = Token::from_kind(FdtTokenKind::BeginNode);
    let m = create_mmap(node, DtbMmap::new());
    assert_eq!(m.structure, vec![1, 2]);
    let prop = Token::from_kind(FdtTokenKind::Prop);
    let m = create_mmap(prop, DtbMmap::new());
    assert!(m.structure.is_empty());
}

#[test]
fn blob_of_a_node() {
    let blob = create_dtb(Token::from_kind(FdtTokenKind::BeginNode));
    let mut expected = be(&[0xd00d_feed, 64, 56, 64, 40, 17, 16, 0, 0, 8]);
    expected.extend_from_slice(&[0u8; 16]);
    expected.extend(be(&[1, 2]));
    assert_eq!(blob, expected);
}

#[test]
fn blob_holds_header_blocks_and_strings() {
    let mut m = DtbMmap::new();
    m.write_nodekind(FdtTokenKind::BeginNode);
    m.write_nodename(b"/");
    m.write_property(b"ab", &[5], 4);
    m.write_nodekind(FdtTokenKind::EndNode);
    let h: FdtHeader = m.header();
    assert_eq!(h.size_dt_struct, 28);
    assert_eq!(h.size_dt_strings, 3);
    assert_eq!(h.totalsize, 40 + 16 + 28 + 3);
    assert_eq!(h.magic, 0xd00d_feed);
    assert_eq!(h.off_mem_rsvmap, 40);
    assert_eq!(h.off_dt_struct, 56);
    assert_eq!(h.off_dt_strings, 84);
    let blob = dtb_bytes(&m);
    assert_eq!(blob.len() as u32, h.totalsize);
    let st = h.off_dt_struct as usize;
    assert_eq!(&blob[st..st + 28], be(&[1, 0, 3, 4, 0, 5, 2]).as_slice());
    let so = h.off_dt_strings as usize;
    assert_eq!(&blob[so..], b"ab\0");
}

#[test]
fn string_entries_are_contiguous_and_nul_terminated() {
    let mut m = DtbMmap::new();
    m.regist_string(b"a");
    m.regist_string(b"bcd");
    m.regist_string(b"ef");
    let t = &m.strings.table;
    assert_eq!(t[0].1, 0);
    for i in 0..t.len() {
        assert_eq!(*t[i].0.last().unwrap(), 0);
        if i + 1 < t.len() {
            assert_eq!(t[i + 1].1, t[i].1 + t[i].0.len() as u32);
        }
    }
    let last = &t[t.len() - 1];
    assert_eq!(m.strings.current_offset, last.1 + last.0.len() as u32);
}
