use disasm::binreader::Binreader;
use disasm::bits::{BitOp, BitOpType};
use disasm::branch::{add_branch_ups, BranchTree, GenLabelsErr};
use disasm::deassemble::{deassemble_file, DeasmErrType};
use disasm::instrset::{get_fmt, Fmt, FmtType, Instrfmt, Instrset, Maskmap, Node};
use std::collections::HashMap;

fn leaf(name: &str, fields: Vec<Fmt>) -> Node {
    Node::Instr((name.to_string(), Instrfmt { fmt: fields }))
}

fn field(typ: FmtType, mask: u64) -> Fmt {
    Fmt { typ, mask, ops: Vec::new() }
}

fn one_byte_set() -> Instrset {
    let mut map = HashMap::new();
    map.insert(0x40, leaf("inc", vec![field(FmtType::Unsigned, 0x3f)]));
    map.insert(0x80, leaf("jup", vec![field(FmtType::Ubranch, 0x3f)]));
    map.insert(0x00, leaf("jdn", vec![field(FmtType::Dbranch, 0x3f)]));
    Instrset { wordsize: 1, endian_little: true, reverse_width: 0, set: Maskmap { mask: 0xc0, map } }
}

#[test]
fn lookup_follows_the_mask() {
    let is = one_byte_set();
    let mut total = 0;
    let found = get_fmt(0x45, &is.set, &mut total);
    assert_eq!(found.map(|l| l.0.as_str()), Some("inc"));
    assert_eq!(total, 0xc0);
    let mut total = 0x01;
    assert!(get_fmt(0xc0, &is.set, &mut total).is_none());
    assert_eq!(total, 0xc1);
}

#[test]
fn listing_of_plain_instructions() {
    let is = one_byte_set();
    let mut br = Binreader::new(1, vec![0x45, 0x7f], true).unwrap();
    let mut tree = BranchTree::new();
    assert_eq!(add_branch_ups(&mut br, &mut tree, &is.set), Ok(()));
    assert!(tree.is_empty());
    let mut out = String::new();
    assert!(deassemble_file(&mut br, &is, &mut tree, &mut out).is_ok());
    assert_eq!(out, "inc 5\ninc 63\n");
}

#[test]
fn unknown_word_is_reported_with_its_index() {
    let is = one_byte_set();
    let mut br = Binreader::new(1, vec![0xc0], true).unwrap();
    let mut tree = BranchTree::new();
    assert_eq!(add_branch_ups(&mut br, &mut tree, &is.set), Err(GenLabelsErr::Unrecognized(0, 0xc0)));
    br.rewind().unwrap();
    let mut out = String::new();
    let err = deassemble_file(&mut br, &is, &mut tree, &mut out).unwrap_err();
    assert_eq!(err.words_read, 0);
    assert_eq!(err.typ, DeasmErrType::UnknownOp(0xc0));
    assert_eq!(out, "");
}

#[test]
fn upward_branch_gets_its_label_first() {
    let is = one_byte_set();
    let mut br = Binreader::new(1, vec![0x41, 0x42, 0x43, 0x82], true).unwrap();
    let mut tree = BranchTree::new();
    assert_eq!(add_branch_ups(&mut br, &mut tree, &is.set), Ok(()));
    assert_eq!(tree.iter().copied().collect::<Vec<u64>>(), vec![1]);
    let mut out = String::new();
    assert!(deassemble_file(&mut br, &is, &mut tree, &mut out).is_ok());
    assert_eq!(out, "inc 1\nlabel_0x1:\ninc 2\ninc 3\njup label_0x1\n");
}

#[test]
fn forward_branch_gets_its_label_later() {
    let is = one_byte_set();
    let mut br = Binreader::new(1, vec![0x41, 0x02, 0x43, 0x44], true).unwrap();
    let mut tree = BranchTree::new();
    assert_eq!(add_branch_ups(&mut br, &mut tree, &is.set), Ok(()));
    assert!(tree.is_empty());
    let mut out = String::new();
    assert!(deassemble_file(&mut br, &is, &mut tree, &mut out).is_ok());
    assert_eq!(out, "inc 1\njdn label_0x3\ninc 3\nlabel_0x3:\ninc 4\n");
}

#[test]
fn uncovered_bits_are_written_as_a_tail() {
    let mut map = HashMap::new();
    map.insert(0x1000, leaf("ld", vec![field(FmtType::Addr, 0x0f00)]));
    let is = Instrset { wordsize: 2, endian_little: false, reverse_width: 0, set: Maskmap { mask: 0xf000, map } };
    let mut br = Binreader::new(2, vec![0x1a, 0xbc], false).unwrap();
    let mut tree = BranchTree::new();
    let mut out = String::new();
    assert!(deassemble_file(&mut br, &is, &mut tree, &mut out).is_ok());
    assert_eq!(out, "ld 0xa 0xbc\n");
}

#[test]
fn field_operations_apply_left_to_right() {
    let mut map = HashMap::new();
    let ops = vec![BitOp { typ: BitOpType::SL, val: 4 }, BitOp { typ: BitOpType::OR, val: 1 }];
    map.insert(0x00, leaf("a", vec![Fmt { typ: FmtType::Addr, mask: 0x0f, ops }]));
    let ops = vec![BitOp { typ: BitOpType::OR, val: 1 }, BitOp { typ: BitOpType::SL, val: 4 }];
    map.insert(0x10, leaf("b", vec![Fmt { typ: FmtType::Addr, mask: 0x0f, ops }]));
    let is = Instrset { wordsize: 1, endian_little: true, reverse_width: 0, set: Maskmap { mask: 0xf0, map } };
    let mut br = Binreader::new(1, vec![0x02, 0x12], true).unwrap();
    let mut tree = BranchTree::new();
    let mut out = String::new();
    assert!(deassemble_file(&mut br, &is, &mut tree, &mut out).is_ok());
    assert_eq!(out, "a 0x21\nb 0x30\n");
}
