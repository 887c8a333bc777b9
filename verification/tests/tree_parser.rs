use dtbc::LabelManager;
use dtbc::parser::{make_tree, parse_data, parse_node, parse_property, DtsError, FdtTokenKind, Token};

fn lines(text: &str) -> Vec<Vec<u8>> {
    text.lines().map(|l| l.as_bytes().to_vec()).collect()
}

const SAMPLE: &str = "/dts-v1/;
/ {
model = \"test\";
compatible = \"a\", \"b\";
#address-cells = <1>;

cpus {
cpu0: cpu@0 {
reg = <0x0>;
status = &cpu0;
};
};
intc: interrupt-controller {
interrupt-parent = <&intc 2>;
empty;
};
};
";

#[test]
fn sample_tree() {
    let mut lm = LabelManager::new();
    let root = make_tree(SAMPLE.as_bytes(), &mut lm).unwrap();
    assert_eq!(root.kind, FdtTokenKind::BeginNode);
    assert_eq!(root.name, b"/".to_vec());
    assert!(root.data.is_none());
    let kids = root.child.as_ref().unwrap();
    assert_eq!(kids.len(), 5);

    assert_eq!(kids[0].kind, FdtTokenKind::Prop);
    assert_eq!(kids[0].name, b"model".to_vec());
    assert_eq!(kids[0].data, Some(vec![0x7465_7374, 0]));

    assert_eq!(kids[1].name, b"compatible".to_vec());
    assert_eq!(kids[1].data, Some(vec![0x6100_6200]));

    assert_eq!(kids[2].name, b"#address-cells".to_vec());
    assert_eq!(kids[2].data, Some(vec![1]));

    let cpus = &kids[3];
    assert_eq!(cpus.kind, FdtTokenKind::BeginNode);
    assert_eq!(cpus.name, b"cpus".to_vec());
    let cpu = &cpus.child.as_ref().unwrap()[0];
    assert_eq!(cpu.name, b"cpu@0".to_vec());
    let cpu_kids = cpu.child.as_ref().unwrap();
    assert_eq!(cpu_kids[0].data, Some(vec![0]));
    assert_eq!(cpu_kids[1].data, None);
    assert_eq!(cpu_kids[1].label, Some(b"cpu0".to_vec()));

    let intc = &kids[4];
    assert_eq!(intc.name, b"interrupt-controller".to_vec());
    let intc_kids = intc.child.as_ref().unwrap();
    assert_eq!(intc_kids[0].name, b"interrupt-parent".to_vec());
    assert_eq!(intc_kids[0].data, Some(vec![1, 2]));
    assert_eq!(intc_kids[1].kind, FdtTokenKind::Nop);
    assert!(intc_kids[1].name.is_empty());

    assert_eq!(lm.lookup(b"cpu0"), Some(b"cpu@0".to_vec()));
    assert_eq!(lm.lookup(b"intc"), Some(b"interrupt-controller".to_vec()));
    assert_eq!(lm.regist_phandle(b"intc"), 1);
}

#[test]
fn node_without_children_has_none() {
    let mut lm = LabelManager::new();
    let t = make_tree(b"/dts-v1/;\n/ {\n};\n", &mut lm).unwrap();
    assert!(t.child.is_none());
    assert_eq!(t.kind, FdtTokenKind::BeginNode);
}

#[test]
fn version_line_is_required() {
    let mut lm = LabelManager::new();
    assert!(matches!(make_tree(b"/ {\n};\n", &mut lm), Err(DtsError::MissingVersion)));
    assert!(matches!(make_tree(b"", &mut lm), Err(DtsError::MissingVersion)));
}

#[test]
fn missing_root_node() {
    let mut lm = LabelManager::new();
    assert!(matches!(make_tree(b"/dts-v1/;\n", &mut lm), Err(DtsError::NodeInvalid)));
}

#[test]
fn unterminated_node() {
    let mut lm = LabelManager::new();
    assert!(matches!(make_tree(b"/dts-v1/;\n/ {\na = <1>;\n", &mut lm), Err(DtsError::UnexpectedEof)));
}

#[test]
fn node_errors() {
    let mut lm = LabelManager::new();
    assert!(matches!(parse_node(&lines(""), 0, &mut lm), Err(DtsError::NodeInvalid)));
    assert!(matches!(parse_node(&lines("   "), 0, &mut lm), Err(DtsError::NodeNameNotFound)));
    assert!(matches!(parse_node(&lines("node{"), 0, &mut lm), Err(DtsError::NodeNameNotFound)));
    assert!(matches!(parse_node(&lines("l: node x\n};"), 0, &mut lm), Err(DtsError::BraceExpected)));
}

#[test]
fn labelled_node_registers_label() {
    let mut lm = LabelManager::new();
    let (t, next) = parse_node(&lines("uart0:: serial@10 {\n};\nafter"), 0, &mut lm).unwrap();
    assert_eq!(next, 2);
    assert_eq!(t.name, b"serial@10".to_vec());
    assert_eq!(lm.lookup(b"uart0"), Some(b"serial@10".to_vec()));
}

#[test]
fn property_errors() {
    let mut lm = LabelManager::new();
    assert!(matches!(parse_property(&lines(""), 0, &mut lm), Err(DtsError::PropertyInvalid)));
    assert!(matches!(parse_property(&lines(" "), 0, &mut lm), Err(DtsError::PropNameNotFound)));
    assert!(matches!(parse_property(&lines("a ="), 0, &mut lm), Err(DtsError::EmptyData)));
}

#[test]
fn property_without_value_is_nop() {
    let mut lm = LabelManager::new();
    let (t, next) = parse_property(&lines("ranges;"), 0, &mut lm).unwrap();
    assert_eq!(next, 1);
    assert_eq!(t.kind, FdtTokenKind::Nop);
}

#[test]
fn data_errors() {
    let mut lm = LabelManager::new();
    assert!(matches!(parse_data(b"", &mut lm), Err(DtsError::EmptyData)));
    assert!(matches!(parse_data(b"<1>", &mut lm), Err(DtsError::SemicolonExpected)));
    assert!(matches!(parse_data(b"\"a\",x;", &mut lm), Err(DtsError::QuoteExpected)));
    assert!(matches!(parse_data(b"<0xzz>;", &mut lm), Err(DtsError::HexParse)));
    assert!(matches!(parse_data(b"x;", &mut lm), Err(DtsError::InvalidData)));
}

#[test]
fn data_values() {
    let mut lm = LabelManager::new();
    assert_eq!(parse_data(b"<0x10 20>;", &mut lm).unwrap(), (Some(vec![16, 20]), None));
    assert_eq!(parse_data(b"\"ab\";", &mut lm).unwrap(), (Some(vec![0x6162_0000]), None));
    assert_eq!(parse_data(b"\"a\",\"bc\";", &mut lm).unwrap(), (Some(vec![0x6100_6263, 0]), None));
    assert_eq!(parse_data(b"&uart;", &mut lm).unwrap(), (None, Some(b"uart".to_vec())));
    assert_eq!(parse_data(b"<&x &y &x>;", &mut lm).unwrap(), (Some(vec![1, 2, 1]), None));
    assert_eq!(parse_data(b"<>;", &mut lm).unwrap(), (Some(vec![3]), None));
}

#[test]
fn token_from_kind_is_empty() {
    let t = Token::from_kind(FdtTokenKind::End);
    assert_eq!(t.kind, FdtTokenKind::End);
    assert!(t.name.is_empty() && t.data.is_none() && t.label.is_none() && t.child.is_none());
    assert_eq!(FdtTokenKind::End.code(), 9);
    assert_eq!(FdtTokenKind::Prop.code(), 3);
}

#[test]
fn missing_version_leaves_labels_alone() {
    let mut lm = LabelManager::new();
    lm.regist_label(b"a".to_vec(), b"node".to_vec());
    assert!(matches!(make_tree(b"/dts-v2/;\n/ {\n};\n", &mut lm), Err(DtsError::MissingVersion)));
    assert_eq!(lm.lookup(b"a"), Some(b"node".to_vec()));
    assert_eq!(lm.regist_phandle(b"x"), 1);
}

#[test]
fn missing_brace_keeps_the_label() {
    let mut lm = LabelManager::new();
    assert!(matches!(parse_node(&lines("l:: n x"), 0, &mut lm), Err(DtsError::BraceExpected)));
    assert_eq!(lm.lookup(b"l"), Some(b"n".to_vec()));
}

#[test]
fn failed_data_keeps_phandles_handed_out_before() {
    let mut lm = LabelManager::new();
    assert!(matches!(parse_data(b"<&a &b 0xzz &c>;", &mut lm), Err(DtsError::HexParse)));
    assert_eq!(lm.regist_phandle(b"a"), 1);
    assert_eq!(lm.regist_phandle(b"b"), 2);
    assert_eq!(lm.regist_phandle(b"c"), 3);
}

#[test]
fn data_without_cells_leaves_phandles_alone() {
    let mut lm = LabelManager::new();
    assert_eq!(parse_data(b"&a;", &mut lm).unwrap(), (None, Some(b"a".to_vec())));
    assert_eq!(lm.regist_phandle(b"z"), 1);
}
