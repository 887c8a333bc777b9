use dtbc::bytes::split_lines;
use dtbc::dtb::parse::{parse_data, parse_line, parse_node, parse_property};
use dtbc::generate::DtbMmap;
use dtbc::parser::DtsError;

fn lines(text: &str) -> Vec<Vec<u8>> {
    split_lines(text.as_bytes())
}

#[test]
fn root_with_address_cells() {
    let ls = lines("/ {\n#address-cells = <2>;\n};");
    let mut m = DtbMmap::new();
    assert_eq!(parse_node(&ls, 0, &mut m).unwrap(), 3);
    assert_eq!(m.structure, vec![1, 0, 3, 3, 4, 0, 2, 2]);
    assert_eq!(m.label_value(b""), None);
}

#[test]
fn labelled_address_cells_resolve_references() {
    let ls = lines("/ {\ncpus: cpus {\n#address-cells = <1>;\n};\nreg = <&cpus 0x10>;\n};");
    let mut m = DtbMmap::new();
    assert_eq!(parse_node(&ls, 0, &mut m).unwrap(), 6);
    assert_eq!(
        m.structure,
        vec![1, 0, 1, 0x6370_7573, 0, 3, 3, 4, 0, 1, 2, 3, 3, 8, 15, 1, 16, 2]
    );
    assert_eq!(m.label_value(b"cpus"), Some(1));
}

#[test]
fn string_data_and_size() {
    let m = DtbMmap::new();
    assert_eq!(parse_data(b"\"okay\";", &m).unwrap(), (vec![0x6f6b_6179, 0], 5));
    assert_eq!(parse_data(b"<1 2 3>;", &m).unwrap(), (vec![1, 2, 3], 12));
}

#[test]
fn one_pass_data_errors() {
    let m = DtbMmap::new();
    assert!(matches!(parse_data(b"", &m), Err(DtsError::EmptyData)));
    assert!(matches!(parse_data(b"\"abc", &m), Err(DtsError::SemicolonExpected)));
    assert!(matches!(parse_data(b"<1>", &m), Err(DtsError::SemicolonExpected)));
    assert!(matches!(parse_data(b"<0xq>;", &m), Err(DtsError::HexParse)));
    assert!(matches!(parse_data(b"<&nope>;", &m), Err(DtsError::LabelReference)));
    assert!(matches!(parse_data(b"&x;", &m), Err(DtsError::InvalidData)));
}

#[test]
fn empty_line_is_skipped() {
    let ls = lines("\nx;");
    let mut m = DtbMmap::new();
    assert_eq!(parse_line(&ls, 0, &mut m).unwrap(), 1);
    assert!(m.structure.is_empty());
    assert!(matches!(parse_line(&ls, 2, &mut m), Err(DtsError::UnexpectedEof)));
}

#[test]
fn property_without_value_has_no_data() {
    let ls = lines("ranges;");
    let mut m = DtbMmap::new();
    assert_eq!(parse_property(&ls, 0, &mut m).unwrap(), 1);
    assert_eq!(m.structure, vec![3, 3, 0, 0]);
    assert!(matches!(parse_property(&ls, 1, &mut m), Err(DtsError::PropertyInvalid)));
}

#[test]
fn one_pass_node_errors() {
    let mut m = DtbMmap::new();
    assert!(matches!(parse_node(&lines(""), 0, &mut m), Err(DtsError::NodeInvalid)));
    assert!(matches!(parse_node(&lines("n {"), 0, &mut m), Err(DtsError::UnexpectedEof)));
    assert!(matches!(parse_node(&lines("a: b c"), 0, &mut m), Err(DtsError::BraceExpected)));
}

#[test]
fn failed_property_leaves_its_prop_token() {
    let ls = lines("x = <0xq>;");
    let mut m = DtbMmap::new();
    assert!(matches!(parse_property(&ls, 0, &mut m), Err(DtsError::HexParse)));
    assert_eq!(m.structure, vec![3]);
}

#[test]
fn failed_node_header_leaves_what_was_written() {
    let ls = lines("a: b c");
    let mut m = DtbMmap::new();
    assert!(matches!(parse_node(&ls, 0, &mut m), Err(DtsError::BraceExpected)));
    assert_eq!(m.structure, vec![1, 0x6200_0000]);
    assert_eq!(m.current_label, Some(b"a".to_vec()));
}
