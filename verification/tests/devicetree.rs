//! Tests for the flattened-devicetree container, traversal, and property
//! parsers.

use axboot::fdt::Fdt;
use axboot::node::Node;
use axboot::property::{reg_list, reg_list_raw, string, string_list, u32, u32_list, unsigned, Status};

fn be(out: &mut Vec<u8>, v: u32) {
    out.extend_from_slice(&v.to_be_bytes());
}

fn begin_node(out: &mut Vec<u8>, name: &str) {
    be(out, 1);
    out.extend_from_slice(name.as_bytes());
    out.push(0);
    while out.len() % 4 != 0 {
        out.push(0);
    }
}

fn prop(out: &mut Vec<u8>, name_off: u32, value: &[u8]) {
    be(out, 3);
    be(out, value.len() as u32);
    be(out, name_off);
    out.extend_from_slice(value);
    while out.len() % 4 != 0 {
        out.push(0);
    }
}

fn end_node(out: &mut Vec<u8>) {
    be(out, 2);
}

/// Strings block: `compatible\0phandle\0#address-cells\0`.
const S_COMPATIBLE: u32 = 0;
const S_PHANDLE: u32 = 11;
const S_ADDRESS_CELLS: u32 = 19;

fn strings_block() -> Vec<u8> {
    let mut s = Vec::new();
    s.extend_from_slice(b"compatible\0phandle\0#address-cells\0");
    s
}

/// A tree with a root holding one `soc` child, which holds one `uart`
/// child.
fn sample_fdt_bytes() -> Vec<u8> {
    let mut st = Vec::new();
    begin_node(&mut st, "");
    prop(&mut st, S_ADDRESS_CELLS, &2u32.to_be_bytes());
    begin_node(&mut st, "soc");
    prop(&mut st, S_COMPATIBLE, b"simple-bus\0");
    begin_node(&mut st, "uart");
    prop(&mut st, S_COMPATIBLE, b"ns16550\0vendor,uart\0");
    prop(&mut st, S_PHANDLE, &7u32.to_be_bytes());
    end_node(&mut st);
    end_node(&mut st);
    end_node(&mut st);
    be(&mut st, 9); // end marker
    let strings = strings_block();
    let mut b = vec![0u8; 40];
    let struct_off = 40u32;
    let strings_off = struct_off + st.len() as u32;
    let total = strings_off + strings.len() as u32;
    b.splice(0..4, 0xd00d_feedu32.to_be_bytes());
    b.splice(4..8, total.to_be_bytes());
    b.splice(8..12, struct_off.to_be_bytes());
    b.splice(12..16, strings_off.to_be_bytes());
    b.splice(32..36, (strings.len() as u32).to_be_bytes());
    b.splice(36..40, (st.len() as u32).to_be_bytes());
    b.extend_from_slice(&st);
    b.extend_from_slice(&strings);
    b
}

#[test]
fn from_bytes_accepts_a_sound_tree() {
    let fdt = Fdt::from_bytes(sample_fdt_bytes());
    assert!(fdt.is_ok());
}

#[test]
fn from_bytes_rejects_bad_magic() {
    let mut b = sample_fdt_bytes();
    b[0] = 0;
    assert!(Fdt::from_bytes(b).is_err());
}

#[test]
fn from_bytes_rejects_unbalanced_nodes() {
    let mut st = Vec::new();
    begin_node(&mut st, "");
    be(&mut st, 9);
    let mut b = vec![0u8; 40];
    b.splice(0..4, 0xd00d_feedu32.to_be_bytes());
    b.splice(4..8, (40 + st.len() as u32).to_be_bytes());
    b.splice(8..12, 40u32.to_be_bytes());
    b.splice(12..16, (40 + st.len() as u32).to_be_bytes());
    b.splice(32..36, 0u32.to_be_bytes());
    b.splice(36..40, (st.len() as u32).to_be_bytes());
    b.extend_from_slice(&st);
    assert!(Fdt::from_bytes(b).is_err());
}

#[test]
fn root_properties_resolve_names() {
    let fdt = Fdt::from_bytes(sample_fdt_bytes()).unwrap();
    let root = fdt.root();
    let props = root.properties(&fdt);
    assert_eq!(props.len(), 1);
    assert_eq!(props[0].0, b"#address-cells".to_vec());
    assert_eq!(props[0].1, 2u32.to_be_bytes().to_vec());
    assert_eq!(root.address_cells(&fdt), 2);
    assert_eq!(root.size_cells(&fdt), 2); // absent: the default
}

#[test]
fn traversal_reaches_the_whole_subtree() {
    let fdt = Fdt::from_bytes(sample_fdt_bytes()).unwrap();
    let root = fdt.root();
    let all = root.preorder(&fdt);
    assert_eq!(all.len(), 3);
    // Walk to the grandchild through the one-pass traversal.
    let mut w = root.walker();
    let it = w.iter();
    let soc = it.next_child(&fdt, &mut w).expect("soc child");
    let uart = soc.next_child(&fdt, &mut w).expect("uart child");
    let uart_node: Node = uart.node();
    assert_eq!(uart_node.phandle(&fdt), Some(7));
    assert_eq!(uart_node.compatible_with(&fdt, b"ns16550"), Some(true));
    assert_eq!(uart_node.compatible_with(&fdt, b"vendor,uart"), Some(true));
    assert_eq!(uart_node.compatible_with(&fdt, b"other"), Some(false));
    assert!(uart.next_child(&fdt, &mut w).is_none());
}

#[test]
fn status_parses_the_standard_values() {
    assert_eq!(Status::from_bytes(b"okay\0"), Some(Status::Okay));
    assert_eq!(Status::from_bytes(b"disabled\0"), Some(Status::Disabled));
    assert_eq!(Status::from_bytes(b"reserved\0"), Some(Status::Reserved));
    assert_eq!(Status::from_bytes(b"fail\0"), Some(Status::Fail(None)));
    assert_eq!(
        Status::from_bytes(b"fail-hw\0"),
        Some(Status::Fail(Some(b"hw".to_vec())))
    );
    assert_eq!(Status::from_bytes(b"bogus\0"), None);
    assert_eq!(Status::from_bytes(b"okay"), None);
    assert!(Status::Okay.is_okay());
    assert!(!Status::Disabled.is_okay());
}

#[test]
fn node_without_status_reads_okay() {
    let fdt = Fdt::from_bytes(sample_fdt_bytes()).unwrap();
    let root = fdt.root();
    assert_eq!(root.status(&fdt), Some(Status::Okay));
    assert_eq!(root.name(&fdt), b"".to_vec());
    let all = root.preorder(&fdt);
    assert_eq!(all[1].name(&fdt), b"soc".to_vec());
    assert_eq!(all[2].name(&fdt), b"uart".to_vec());
}

#[test]
fn property_lookup_misses_cleanly() {
    let fdt = Fdt::from_bytes(sample_fdt_bytes()).unwrap();
    let root = fdt.root();
    assert!(root.property(&fdt, b"status").is_none());
    assert!(root.phandle(&fdt).is_none());
}

#[test]
fn u32_parses_exactly_four_bytes() {
    assert_eq!(u32(&[0, 0, 0, 2]), Some(2));
    assert_eq!(u32(&[0, 0, 1, 0]), Some(256));
    assert_eq!(u32(&[1, 2, 3]), None);
}

#[test]
fn unsigned_parses_any_width_up_to_eight() {
    assert_eq!(unsigned(&[]), Some(0));
    assert_eq!(unsigned(&[0x3b, 0x9a, 0xca, 0x00]), Some(1_000_000_000));
    assert_eq!(
        unsigned(&[0x00, 0x00, 0x00, 0x01, 0x2a, 0x05, 0xf2, 0x00]),
        Some(5_000_000_000)
    );
}

#[test]
fn u32_list_splits_cells() {
    let cells = [0, 0, 0, 2, 0, 0, 0, 3, 0, 0, 0, 4];
    assert_eq!(u32_list(&cells), Some(vec![2, 3, 4]));
    assert_eq!(u32_list(&cells[..7]), None);
}

#[test]
fn reg_list_parses_address_size_pairs() {
    let mut reg = Vec::new();
    reg.extend_from_slice(&0u64.to_be_bytes());
    reg.extend_from_slice(&0x8000_0000u64.to_be_bytes());
    reg.extend_from_slice(&0x1_0000_0000u64.to_be_bytes());
    reg.extend_from_slice(&0x1_0000_0000u64.to_be_bytes());
    let pairs = reg_list(&reg, 2, 2).unwrap();
    assert_eq!(pairs, vec![(0, 0x8000_0000), (0x1_0000_0000, 0x1_0000_0000)]);
    assert!(reg_list(&reg[..31], 2, 2).is_none());
}

#[test]
fn reg_list_raw_splits_fields() {
    let data = [0, 0, 0, 1, 0, 0, 0, 2];
    let raw = reg_list_raw(&data, 1, 1).unwrap();
    assert_eq!(raw.len(), 1);
    assert_eq!(raw[0].0, vec![0, 0, 0, 1]);
    assert_eq!(raw[0].1, vec![0, 0, 0, 2]);
}

#[test]
fn string_list_splits_on_terminators() {
    let ok = string_list(b"fsl,mpc8641\0ns16550\0").unwrap();
    assert_eq!(ok, vec![b"fsl,mpc8641".to_vec(), b"ns16550".to_vec()]);
    assert!(string_list(b"terminated\0not-terminated").is_none());
    assert_eq!(string_list(b""), Some(Vec::new()));
}

#[test]
fn string_requires_one_terminated_string() {
    assert_eq!(string(b"okay\0"), Some(b"okay".to_vec()));
    assert!(string(b"two\0strings\0").is_none());
    assert!(string(b"unterminated").is_none());
}
