use disasm::binreader::{BinReaderErr, Binreader};
use disasm::bits::{
    align, apply_bit_ops, minimize, reverse, twoscomp, wordt_from_be, wordt_from_le, BitOp,
    BitOpType,
};
use disasm::branch::{add_branch_ups, BranchTree, GenLabelsErr};
use disasm::deassemble::{deassemble_file, deassemble_instr, DeasmErrType};
use disasm::instrset::{get_fmt, Fmt, FmtType, Instrfmt, Instrset, Maskmap, Node};
use disasm::parse::{parse_file, ErrType, Parser};
use disasm::text::{push_bin, push_dec, push_hex, push_label, push_signed, str_chars};
use std::collections::HashMap;

const WORDS: [u64; 6] = [0, 1, 0b10000011, 0xdead_beef, u64::MAX, 0x8000_0000_0000_0001];
const MASKS: [u64; 6] = [0, 1, 0b11000011, 0xf0f0, u64::MAX, 0x8000_0000_0000_0000];

fn one_field_set(typ: FmtType, opcode_mask: u64, field_mask: u64, wordsize: usize) -> Instrset {
    let mut map = HashMap::new();
    map.insert(
        0,
        Node::Instr(("op".to_string(), Instrfmt { fmt: vec![Fmt { typ, mask: field_mask, ops: Vec::new() }] })),
    );
    Instrset { wordsize, endian_little: true, reverse_width: 0, set: Maskmap { mask: opcode_mask, map } }
}

#[test]
fn align_of_minimize_is_the_word_under_the_mask() {
    for w in WORDS {
        for m in MASKS {
            assert_eq!(align(minimize(w, m).0, m), w & m);
        }
    }
}

#[test]
fn minimize_of_align_keeps_the_low_bits() {
    for v in WORDS {
        for m in MASKS {
            let count = m.count_ones() as u64;
            let low = if count == 64 { v } else { v & ((1u64 << count) - 1) };
            assert_eq!(minimize(align(v, m), m), (low, count));
        }
    }
}

#[test]
fn twoscomp_stays_in_range_and_round_trips() {
    for v in WORDS {
        for width in 1..=64u64 {
            let t = twoscomp((v, width));
            let bound = 1i128 << (width - 1);
            assert!(-bound <= t as i128 && (t as i128) < bound);
            assert_eq!(twoscomp((t as u64, width)), t);
        }
    }
    assert_eq!(twoscomp((0b0111, 3)), -1);
    assert_eq!(twoscomp((0b10011, 4)), 3);
    assert_eq!(twoscomp((u64::MAX, 64)), -1);
    assert_eq!(twoscomp((1 << 63, 64)), i64::MIN);
    assert_eq!(twoscomp((5, 0)), 0);
}

#[test]
fn reverse_twice_is_the_value() {
    for size in 0..=8usize {
        for v in WORDS {
            let fitted = if size == 8 { v } else { v & ((1u64 << (8 * size)) - 1) };
            assert_eq!(reverse(&reverse(&fitted, size), size), fitted);
        }
    }
    assert_eq!(reverse(&0x01, 1), 0x80);
    assert_eq!(reverse(&0x1ff, 1), 0xff);
    assert_eq!(reverse(&0x01, 0), 0);
    assert_eq!(reverse(&0x01, 8), 1 << 63);
    assert_eq!(reverse(&(1 << 63), 9), 1 << 8);
    assert_eq!(reverse(&u64::MAX, 16), 0);
    assert_eq!(reverse(&u64::MAX, usize::MAX), 0);
}

#[test]
fn words_from_bytes() {
    assert_eq!(wordt_from_le(&vec![0x12, 0x10]), 0x1012);
    assert_eq!(wordt_from_be(&vec![0x12, 0x10]), 0x1210);
    assert_eq!(wordt_from_le(&Vec::new()), 0);
    assert_eq!(wordt_from_be(&Vec::new()), 0);
    let nine = vec![1, 2, 3, 4, 5, 6, 7, 8, 9];
    assert_eq!(wordt_from_le(&nine), 0x0807060504030201);
    assert_eq!(wordt_from_be(&nine), 0x0203040506070809);
}

#[test]
fn operations_fold_from_the_left() {
    let shl = BitOp { typ: BitOpType::SL, val: 4 };
    let or = BitOp { typ: BitOpType::OR, val: 1 };
    let mut v = 2;
    apply_bit_ops(&vec![shl, or], &mut v);
    assert_eq!(v, 0x21);
    let mut v = 2;
    apply_bit_ops(&vec![or, shl], &mut v);
    assert_eq!(v, 0x30);
    let mut v = 0xff;
    apply_bit_ops(
        &vec![
            BitOp { typ: BitOpType::AND, val: 0x3c },
            BitOp { typ: BitOpType::XOR, val: 0x0f },
            BitOp { typ: BitOpType::SR, val: 1 },
        ],
        &mut v,
    );
    assert_eq!(v, 0x19);
    let mut v = 0xff;
    apply_bit_ops(&vec![BitOp { typ: BitOpType::SL, val: 64 }], &mut v);
    assert_eq!(v, 0);
    let mut v = 0xff;
    apply_bit_ops(&vec![BitOp { typ: BitOpType::SR, val: 1000 }], &mut v);
    assert_eq!(v, 0);
}

#[test]
fn numbers_in_text() {
    let mut out = String::from(">");
    push_hex(&mut out, 0);
    push_hex(&mut out, 0xc0ffee);
    push_bin(&mut out, 5);
    push_bin(&mut out, 0);
    push_dec(&mut out, 1234567890);
    push_signed(&mut out, -5);
    push_signed(&mut out, i64::MIN);
    push_signed(&mut out, 7);
    push_label(&mut out, 255);
    push_hex(&mut out, u64::MAX);
    assert_eq!(out, ">0x00xc0ffee0b1010b01234567890-5-92233720368547758087label_0xff0xffffffffffffffff");
    assert_eq!(str_chars("a\u{e9}z"), vec!['a', '\u{e9}', 'z']);
}

#[test]
fn declared_leaf_is_found_by_its_opcode() {
    let description = "1 byte words\nmask 0b11000011\n0b1011 = hit\n}\n";
    let is = parse_file(description, false).unwrap();
    for w in 0..=255u64 {
        let mut total = 0;
        let found = get_fmt(w, &is.set, &mut total);
        assert_eq!(found.is_some(), minimize(w, 0b11000011).0 == 0b1011);
        assert_eq!(total, 0b11000011);
    }
}

#[test]
fn nested_masks_are_all_reported() {
    let description = "2 byte words\nmask 0xf000\n1 mask 0x0f00 {\n2 = deep\n}\n}\n";
    let is = parse_file(description, false).unwrap();
    let mut total = 0;
    assert_eq!(get_fmt(0x1234, &is.set, &mut total).map(|l| l.0.as_str()), Some("deep"));
    assert_eq!(total, 0xff00);
    let mut total = 0;
    assert!(get_fmt(0x1334, &is.set, &mut total).is_none());
    assert_eq!(total, 0xff00);
    let mut total = 0;
    assert!(get_fmt(0x2234, &is.set, &mut total).is_none());
    assert_eq!(total, 0xf000);
}

#[test]
fn label_pass_collects_exactly_the_upward_targets() {
    let description = "1 byte words\n\
                       mask 0xc0\n\
                       0 = up ubranch 0:5\n\
                       1 = abs sbranch 0:5\n\
                       2 = rel ibranch 0:5\n\
                       3 = down dbranch 0:5\n\
                       }\n";
    let is = parse_file(description, false).unwrap();
    // index: 0 up 0; 1 abs 0; 2 abs 5; 3 rel -1; 4 rel +1; 5 rel 0; 6 down 1; 7 up 3; 8 abs 8
    let binary = vec![0x00, 0x40, 0x45, 0xbf, 0x81, 0x80, 0xc1, 0x03, 0x48];
    let mut br = Binreader::new(1, binary, true).unwrap();
    let mut tree = BranchTree::new();
    tree.insert(100);
    assert_eq!(add_branch_ups(&mut br, &mut tree, &is.set), Ok(()));
    assert_eq!(tree.iter().copied().collect::<Vec<u64>>(), vec![0, 2, 4, 5, 100]);
    assert_eq!(br.next(), Ok(0x00));
}

#[test]
fn labels_stand_only_at_instructions() {
    let is = one_field_set(FmtType::Dbranch, 0x80, 0x7f, 1);
    let mut br = Binreader::new(1, vec![0x01, 0x05, 0x00], true).unwrap();
    let mut tree = BranchTree::new();
    tree.insert(3);
    tree.insert(7);
    let mut out = String::new();
    assert!(deassemble_file(&mut br, &is, &mut tree, &mut out).is_ok());
    assert_eq!(out, "op label_0x1\nlabel_0x1:\nop label_0x6\nop label_0x2\n");
    assert_eq!(tree.iter().copied().collect::<Vec<u64>>(), vec![2, 3, 6, 7]);
}

#[test]
fn a_pending_index_that_was_passed_holds_later_labels_back() {
    let is = one_field_set(FmtType::Sbranch, 0x80, 0x7f, 1);
    let mut br = Binreader::new(1, vec![0x00, 0x02, 0x00], true).unwrap();
    let mut tree = BranchTree::new();
    let mut out = String::new();
    assert!(deassemble_file(&mut br, &is, &mut tree, &mut out).is_ok());
    assert_eq!(out, "op label_0x0\nop label_0x2\nop label_0x0\n");
    assert_eq!(tree.iter().copied().collect::<Vec<u64>>(), vec![0, 2]);
}

#[test]
fn upward_branch_above_the_start_is_refused() {
    let is = one_field_set(FmtType::Ubranch, 0x80, 0x7f, 1);
    let mut br = Binreader::new(1, vec![0x00, 0x02], true).unwrap();
    let mut tree = BranchTree::new();
    assert_eq!(add_branch_ups(&mut br, &mut tree, &is.set), Err(GenLabelsErr::Unrecognized(1, 0x02)));
    assert_eq!(tree.iter().copied().collect::<Vec<u64>>(), vec![0]);
    br.rewind().unwrap();
    let mut out = String::new();
    let err = deassemble_file(&mut br, &is, &mut tree, &mut out).unwrap_err();
    assert_eq!((err.typ, err.words_read), (DeasmErrType::UnknownOp(0x02), 1));
    assert_eq!(out, "label_0x0:\nop label_0x0\n");
    let mut out = String::from("kept");
    let err = deassemble_instr(0x02, &is, &mut tree, 1, &mut out).unwrap_err();
    assert_eq!((err.typ, err.words_read), (DeasmErrType::UnknownOp(0x02), 0));
    assert_eq!(out, "kept");
}

#[test]
fn branch_sums_wrap_around() {
    let is = one_field_set(FmtType::Dbranch, 0, u64::MAX, 8);
    let mut tree = BranchTree::new();
    let mut out = String::new();
    assert!(deassemble_instr(u64::MAX, &is, &mut tree, 2, &mut out).is_ok());
    assert_eq!(out, "op label_0x1\n");
    assert!(tree.contains(&1));
    let is = one_field_set(FmtType::Ibranch, 0x80, 0x7f, 1);
    let mut tree = BranchTree::new();
    let mut out = String::new();
    assert!(deassemble_instr(0x7e, &is, &mut tree, 1, &mut out).is_ok());
    assert_eq!(out, "op label_0xffffffffffffffff\n");
    assert!(tree.is_empty());
}

#[test]
fn every_kind_of_field_is_shown_in_its_form() {
    let kinds = [
        (FmtType::Addr, "op 0x1e\n"),
        (FmtType::Unsigned, "op 30\n"),
        (FmtType::Signed, "op -2\n"),
        (FmtType::Binary, "op 0b11110\n"),
        (FmtType::Ignore, "op\n"),
        (FmtType::Ubranch, "op label_0x2\n"),
        (FmtType::Dbranch, "op label_0x3e\n"),
        (FmtType::Ibranch, "op label_0x1e\n"),
        (FmtType::Sbranch, "op label_0x1e\n"),
    ];
    for (typ, expected) in kinds {
        let is = one_field_set(typ, 0xe0, 0x1f, 1);
        let mut tree = BranchTree::new();
        let mut out = String::new();
        assert!(deassemble_instr(0x1e, &is, &mut tree, 32, &mut out).is_ok());
        assert_eq!(out, expected);
    }
}

#[test]
fn tail_depends_on_the_word_size() {
    let is = one_field_set(FmtType::Unsigned, 0xf0, 0x0f, 1);
    let mut tree = BranchTree::new();
    let mut out = String::new();
    assert!(deassemble_instr(0x05, &is, &mut tree, 0, &mut out).is_ok());
    assert_eq!(out, "op 5\n");
    let is = one_field_set(FmtType::Unsigned, 0xf0, 0x0f, 2);
    let mut out = String::new();
    assert!(deassemble_instr(0xab05, &is, &mut tree, 0, &mut out).is_ok());
    assert_eq!(out, "op 5 0xab\n");
    let is = one_field_set(FmtType::Unsigned, 0, u64::MAX, 8);
    let mut out = String::new();
    assert!(deassemble_instr(7, &is, &mut tree, 0, &mut out).is_ok());
    assert_eq!(out, "op 7\n");
    let is = one_field_set(FmtType::Unsigned, 0, u64::MAX, 9);
    let mut out = String::new();
    assert!(deassemble_instr(7, &is, &mut tree, 0, &mut out).is_ok());
    assert_eq!(out, "op 7 0x0\n");
}

#[test]
fn reader_hands_out_words_in_order() {
    assert!(Binreader::new(0, vec![1, 2], true).is_none());
    assert!(Binreader::new(2, vec![1, 2, 3], true).is_none());
    let mut br = Binreader::new(2, vec![1, 2, 3, 4], false).unwrap();
    assert_eq!(br.n_instrs(), 2);
    assert_eq!(br.next(), Ok(0x0102));
    assert_eq!(br.next(), Ok(0x0304));
    assert_eq!(br.next(), Err(BinReaderErr::InternalIO));
    assert_eq!(br.rewind(), Ok(()));
    assert_eq!(br.next(), Ok(0x0102));
    let empty = Binreader::new(4, Vec::new(), true).unwrap();
    assert_eq!(empty.n_instrs(), 0);
    assert_eq!(BinReaderErr::InternalIO.message(), "Failed to read from binary file: no whole word is left");
}

#[test]
fn passes_stop_when_words_run_out() {
    let is = one_field_set(FmtType::Unsigned, 0x80, 0x7f, 1);
    let mut br = Binreader::new(1, vec![1, 2, 3], true).unwrap();
    br.next().unwrap();
    let mut tree = BranchTree::new();
    assert_eq!(add_branch_ups(&mut br, &mut tree, &is.set), Err(GenLabelsErr::IO(2)));
    br.rewind().unwrap();
    br.next().unwrap();
    br.next().unwrap();
    let mut out = String::new();
    let err = deassemble_file(&mut br, &is, &mut tree, &mut out).unwrap_err();
    assert_eq!((err.typ, err.words_read), (DeasmErrType::Binread(BinReaderErr::InternalIO), 1));
    assert_eq!(out, "op 3\n");
    assert_eq!(err.message(), "[At 0x1] I/O error: Failed to read from binary file: no whole word is left");
}

#[test]
fn parser_without_an_open_table_refuses_every_line() {
    let parser = Parser { stage: 2, wordsize: 1, endian_little: true, reverse: 0, braces: Vec::new() };
    assert_eq!(parser.step(&vec!["}"], false).err(), Some(ErrType::ExtraClosingBrace));
    assert_eq!(ErrType::ExtraClosingBrace.message(), "Extra closing brace");
}

#[test]
fn parser_goes_line_by_line() {
    let parser = Parser::new();
    let parser = match parser.step(&vec!["2", "byte", "words"], true) {
        Ok(disasm::parse::Step::Open(next)) => next,
        _ => panic!("the header leaves the description open"),
    };
    assert_eq!((parser.stage, parser.wordsize, parser.reverse), (1, 2, 2));
    let parser = match parser.step(&vec!["mask", "0x000f"], true) {
        Ok(disasm::parse::Step::Open(next)) => next,
        _ => panic!("the mask leaves the description open"),
    };
    assert_eq!(parser.braces[0].1.mask, 0xf000);
    match parser.step(&vec!["}"], true) {
        Ok(disasm::parse::Step::Done(is)) => assert_eq!(is.reverse_width, 2),
        _ => panic!("the brace completes the description"),
    }
}

#[test]
fn a_later_entry_under_the_same_key_takes_its_place() {
    let description = "1 byte words\nmask 0xc0\n1 = first\n2 = other\n1 = second\n}\n";
    let is = parse_file(description, false).unwrap();
    let mut total = 0;
    assert_eq!(get_fmt(0x40, &is.set, &mut total).map(|l| l.0.as_str()), Some("second"));
    let mut total = 0x01;
    assert_eq!(get_fmt(0x80, &is.set, &mut total).map(|l| l.0.as_str()), Some("other"));
    assert_eq!(total, 0xc1);
    let nested = "1 byte words\nmask 0xc0\n1 = first\n1 mask 0x30 {\n}\n}\n";
    let is = parse_file(nested, false).unwrap();
    let mut total = 0;
    assert!(get_fmt(0x40, &is.set, &mut total).is_none());
    assert_eq!(total, 0xf0);
}
