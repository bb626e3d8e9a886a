use disasm::binreader::Binreader;
use disasm::bits::{BitOp, BitOpType};
use disasm::branch::{add_branch_ups, BranchTree, GenLabelsErr};
use disasm::deassemble::{deassemble_file, DeasmErrType};
use disasm::instrset::{FmtType, Instrset, Node};
use disasm::parse::{
    create_fmt, create_node, gen_mask, parse_file, parse_first_line, parse_number, parse_range,
    split_lines, split_words, wordsvec_to_string, ErrType, NumErr,
};

fn listing(description: &str, binary: Vec<u8>) -> String {
    let is: Instrset = parse_file(description, false).unwrap();
    let mut br = Binreader::new(is.wordsize, binary, is.endian_little).unwrap();
    let mut tree = BranchTree::new();
    assert_eq!(add_branch_ups(&mut br, &mut tree, &is.set), Ok(()));
    let mut out = String::new();
    assert!(deassemble_file(&mut br, &is, &mut tree, &mut out).is_ok());
    out
}

#[test]
fn numbers_in_three_bases() {
    assert_eq!(parse_number("0b1101"), Ok(13));
    assert_eq!(parse_number("0x1F"), Ok(31));
    assert_eq!(parse_number("0xff"), Ok(255));
    assert_eq!(parse_number("42"), Ok(42));
    assert_eq!(parse_number("+7"), Ok(7));
    assert_eq!(parse_number("18446744073709551615"), Ok(u64::MAX));
}

#[test]
fn numbers_that_are_none() {
    assert_eq!(parse_number(""), Err(NumErr::Empty));
    assert_eq!(parse_number("0x"), Err(NumErr::Empty));
    assert_eq!(parse_number("+"), Err(NumErr::InvalidDigit));
    assert_eq!(parse_number("-"), Err(NumErr::InvalidDigit));
    assert_eq!(parse_number("-1"), Err(NumErr::InvalidDigit));
    assert_eq!(parse_number("0b12"), Err(NumErr::InvalidDigit));
    assert_eq!(parse_number("1_000"), Err(NumErr::InvalidDigit));
    assert_eq!(parse_number("18446744073709551616"), Err(NumErr::PosOverflow));
    assert_eq!(parse_number("99999999999999999999x"), Err(NumErr::PosOverflow));
}

#[test]
fn numbers_agree_with_the_standard_parser() {
    for text in ["0", "1", "00012", "+0", "++1", "a", "z", "9a", "18446744073709551615", "18446744073709551616", " 1", "1 "] {
        let expected = u64::from_str_radix(text, 10).ok();
        assert_eq!(parse_number(text).ok(), expected, "{}", text);
    }
    for text in ["0", "fF", "+a", "g", "ffffffffffffffff", "10000000000000000"] {
        let expected = u64::from_str_radix(text, 16).ok();
        assert_eq!(parse_number(&format!("0x{}", text)).ok(), expected, "{}", text);
    }
}

#[test]
fn ranges() {
    assert_eq!(parse_range("3:7"), Some(0b11111000));
    assert_eq!(parse_range("7:3"), Some(0b11111000));
    assert_eq!(parse_range("3"), Some(0b1000));
    assert_eq!(parse_range("0:63"), Some(u64::MAX));
    assert_eq!(parse_range("63"), Some(1 << 63));
    assert_eq!(parse_range("64"), None);
    assert_eq!(parse_range("3:5:7"), None);
    assert_eq!(parse_range("3:"), None);
    assert_eq!(parse_range(""), None);
}

#[test]
fn masks() {
    assert_eq!(gen_mask(&vec!["mask", "0"], 0, 0), Some((0, 2)));
    assert_eq!(gen_mask(&vec!["mask", "0x100"], 0, 1), Some((0, 2)));
    assert_eq!(gen_mask(&vec!["mask", "zero"], 0, 0), None);
    assert_eq!(gen_mask(&vec!["mask"], 0, 0), None);
    assert_eq!(gen_mask(&vec!["mask", "0x0f"], 0, 1), Some((0xf0, 2)));
    assert_eq!(gen_mask(&vec!["x", "0:3+8"], 1, 0), Some((0x10f, 1)));
    assert_eq!(gen_mask(&vec!["0+"], 0, 0), None);
    assert_eq!(gen_mask(&vec!["0"], 1, 0), None);
    assert_eq!(gen_mask(&Vec::new(), 0, 0), None);
}

#[test]
fn words_and_lines() {
    assert_eq!(split_words("  a\tbc  d\r"), vec!["a", "bc", "d"]);
    assert_eq!(split_words("   "), Vec::<&str>::new());
    assert_eq!(split_words("a\u{a0}b"), vec!["a", "b"]);
    assert_eq!(split_lines("a\nb\n"), vec!["a", "b"]);
    assert_eq!(split_lines("a\n\nb"), vec!["a", "", "b"]);
    assert_eq!(split_lines(""), Vec::<&str>::new());
    assert_eq!(split_lines("\n"), vec![""]);
    assert_eq!(wordsvec_to_string(&vec!["a", "bc"]), "a bc ");
}

#[test]
fn header_lines() {
    assert_eq!(parse_first_line(&vec!["2", "byte", "words"]), Ok((2, true, false)));
    assert_eq!(parse_first_line(&vec!["4", "byte", "reversed", "nonnative", "endian", "words"]), Ok((4, false, true)));
    assert_eq!(parse_first_line(&vec!["1", "byte", "native", "endian", "words"]), Ok((1, true, false)));
    assert_eq!(parse_first_line(&vec!["1", "byte", "reversed", "words"]), Ok((1, true, true)));
    assert_eq!(parse_first_line(&vec!["1", "byte", "nonnative", "endian", "words"]), Ok((1, false, false)));
    assert_eq!(
        parse_first_line(&vec!["1", "byte", "native", "endian", "reversed", "words"]),
        Err(ErrType::NoWordsize("1 byte native endian reversed words ".to_string()))
    );
    assert_eq!(
        parse_first_line(&vec!["1", "byte", "reversed", "reversed", "words"]),
        Err(ErrType::NoWordsize("1 byte reversed reversed words ".to_string()))
    );
    assert_eq!(
        parse_first_line(&vec!["1", "byte", "native", "words"]),
        Err(ErrType::NoWordsize("1 byte native words ".to_string()))
    );
    assert_eq!(
        parse_first_line(&vec!["1", "byte", "endian", "endian", "words"]),
        Err(ErrType::NoWordsize("1 byte endian endian words ".to_string()))
    );
    assert_eq!(parse_first_line(&vec!["0", "byte", "words"]), Err(ErrType::ZeroWordsize));
    assert_eq!(parse_first_line(&vec!["2", "bytes", "words"]), Err(ErrType::NoWordsizeUnits("2".to_string())));
    assert_eq!(parse_first_line(&vec!["two", "byte", "words"]), Err(ErrType::ParseNumber("two".to_string(), NumErr::InvalidDigit)));
    assert_eq!(parse_first_line(&vec!["2", "byte"]), Err(ErrType::NoWordsize("2 byte ".to_string())));
    assert_eq!(
        parse_first_line(&vec!["2", "byte", "little", "endian", "words"]),
        Err(ErrType::NoWordsize("2 byte little endian words ".to_string()))
    );
}

#[test]
fn fields_with_several_operations() {
    let fmt = create_fmt(&vec!["uint", "0:3", "<<", "2", "|", "1", "addr", "mask", "0xf0"], 0, 0).unwrap();
    assert_eq!(fmt.fmt.len(), 2);
    assert_eq!(fmt.fmt[0].typ, FmtType::Unsigned);
    assert_eq!(fmt.fmt[0].mask, 0xf);
    assert_eq!(fmt.fmt[0].ops, vec![BitOp { typ: BitOpType::SL, val: 2 }, BitOp { typ: BitOpType::OR, val: 1 }]);
    assert_eq!(fmt.fmt[1].typ, FmtType::Addr);
    assert_eq!(fmt.fmt[1].mask, 0xf0);
    assert!(fmt.fmt[1].ops.is_empty());
}

#[test]
fn field_errors() {
    assert_eq!(create_fmt(&vec!["uint"], 0, 0).err(), Some(ErrType::NoMask(String::new())));
    assert_eq!(create_fmt(&vec!["uint", "x"], 0, 0).err(), Some(ErrType::NoMask("x".to_string())));
    assert_eq!(create_fmt(&vec!["float", "0"], 0, 0).err(), Some(ErrType::UnknownFormat("float".to_string())));
    assert_eq!(create_fmt(&vec!["uint", "0", "<<"], 0, 0).err(), Some(ErrType::ExpectedNumber("<<".to_string())));
    assert_eq!(
        create_fmt(&vec!["uint", "0", "<<", "q"], 0, 0).err(),
        Some(ErrType::ParseNumber("q".to_string(), NumErr::InvalidDigit))
    );
    assert_eq!(create_fmt(&vec!["uint", "mask", "0x100"], 0, 1).err(), Some(ErrType::ZeroMask("mask 0x100".to_string())));
    assert_eq!(create_fmt(&vec!["uint", "mask", "0"], 0, 0).err(), Some(ErrType::ZeroMask("mask 0".to_string())));
    assert_eq!(create_fmt(&vec!["uint", "8"], 0, 1).err(), Some(ErrType::ZeroMask("8".to_string())));
}

#[test]
fn node_lines() {
    let (key, node) = create_node(&vec!["0b1011", "=", "inc"], 0b11000011, 0).unwrap();
    assert_eq!(key, 0b10000011);
    match node {
        Node::Instr((name, fmt)) => {
            assert_eq!(name, "inc");
            assert!(fmt.fmt.is_empty());
        }
        Node::Branch(_) => panic!("an instruction was declared"),
    }
    let (key, node) = create_node(&vec!["1", "mask", "0x0f00", "{"], 0xf000, 0).unwrap();
    assert_eq!(key, 0x1000);
    match node {
        Node::Branch(table) => {
            assert_eq!(table.mask, 0x0f00);
            assert!(table.map.is_empty());
        }
        Node::Instr(_) => panic!("a table was declared"),
    }
    assert_eq!(create_node(&vec!["1", "="], 0xf0, 0).err(), Some(ErrType::Other));
    assert!(create_node(&vec!["1", "0:3", "{"], 0xf0, 0).is_ok());
    assert_eq!(create_node(&vec!["1", "mask", "0x0f"], 0xf0, 0).err(), Some(ErrType::Other));
    assert_eq!(create_node(&vec!["1", "mask", "0x0f", "{", "{"], 0xf0, 0).err(), Some(ErrType::Other));
    assert_eq!(create_node(&vec!["1", "0:3", "["], 0xf0, 0).err(), Some(ErrType::Other));
    assert_eq!(create_node(&vec!["1", "mask", "0", "{"], 0xf0, 0).err(), Some(ErrType::ZeroMask("mask 0".to_string())));
    assert_eq!(create_node(&vec!["1", "x", "{"], 0xf0, 0).err(), Some(ErrType::NoMask("1 x { ".to_string())));
}

#[test]
fn file_errors_carry_their_line() {
    assert_eq!(parse_file("", false).err(), Some((ErrType::Other, 0)));
    assert_eq!(parse_file("# only a comment\n\n", false).err(), Some((ErrType::Other, 2)));
    assert_eq!(parse_file("1 byte words\nmask 0xc0\n1 = inc uint 0:5\n", false).err(), Some((ErrType::Other, 3)));
    assert_eq!(
        parse_file("\n1 byte words\nnonsense\n", false).err(),
        Some((ErrType::NoMask("nonsense ".to_string()), 3))
    );
    assert_eq!(
        parse_file("1 byte reversed words\nmask 0x100\n", false).err(),
        Some((ErrType::ZeroMask("mask 0x100".to_string()), 2))
    );
    assert_eq!(
        parse_file("1 byte words\nmask 0\n}\n", false).err(),
        Some((ErrType::ZeroMask("mask 0".to_string()), 2))
    );
    assert_eq!(
        parse_file("1 byte words\nmask 0xc0\n1 mask 0 {\n}\n}\n", false).err(),
        Some((ErrType::ZeroMask("mask 0".to_string()), 3))
    );
    assert_eq!(
        parse_file("1 byte words\nmask 0xc0\n1 = inc uint mask 0\n}\n", false).err(),
        Some((ErrType::ZeroMask("mask 0".to_string()), 3))
    );
    assert_eq!(
        parse_file("1 byte words\nmask 0xc0 {\n}\n", false).err(),
        Some((ErrType::NoMask("mask 0xc0 { ".to_string()), 2))
    );
    assert_eq!(parse_file("1 byte words\nmask 0xc0\n1 mask 0x30\n}\n}\n", false).err(), Some((ErrType::Other, 3)));
    assert_eq!(
        parse_file("1 byte words\nmask 0xc0\n1 = inc uint 0:5\n2 = dec float 0:5\n}\n", false).err(),
        Some((ErrType::UnknownFormat("float".to_string()), 4))
    );
}

#[test]
fn reversal_can_be_forced() {
    let text = "1 byte words\nmask 0x03\n}\n";
    assert_eq!(parse_file(text, false).unwrap().set.mask, 0x03);
    let forced = parse_file(text, true).unwrap();
    assert_eq!(forced.set.mask, 0xc0);
    assert_eq!(forced.reverse_width, 1);
    let said = parse_file("1 byte reversed words\nmask 0x03\n}\n", false).unwrap();
    assert_eq!(said.set.mask, 0xc0);
    assert!(said.endian_little);
}

#[test]
fn minimal_decode() {
    let description = "1 byte words\nmask 0b11000000\n0b01 = inc uint mask 0b00111111\n}\n";
    assert_eq!(listing(description, vec![0x45, 0x7f]), "inc 5\ninc 63\n");
}

#[test]
fn opcode_written_in_place_is_spread_over_the_mask() {
    let description = "1 byte words\nmask 0b11000000\n0b01000000 = inc uint mask 0b00111111\n}\n";
    let is = parse_file(description, false).unwrap();
    assert!(is.set.map.contains_key(&0));
    assert!(!is.set.map.contains_key(&0x40));
}

#[test]
fn unknown_opcode() {
    let description = "1 byte words\nmask 0b11000000\n0b01 = inc uint mask 0b00111111\n}\n";
    let is = parse_file(description, false).unwrap();
    let mut br = Binreader::new(is.wordsize, vec![0xc0], is.endian_little).unwrap();
    let mut tree = BranchTree::new();
    assert_eq!(add_branch_ups(&mut br, &mut tree, &is.set), Err(GenLabelsErr::Unrecognized(0, 0xc0)));
    br.rewind().unwrap();
    let mut out = String::new();
    let err = deassemble_file(&mut br, &is, &mut tree, &mut out).unwrap_err();
    assert_eq!(err.words_read, 0);
    assert_eq!(err.typ, DeasmErrType::UnknownOp(0xc0));
}

#[test]
fn nested_branch() {
    let description = "2 byte native endian words\n\
                       mask 0xF000\n\
                       0x0 = nop\n\
                       0x1 mask 0x0F00 {\n\
                       \x20 0x0 = add uint mask 0x00F0 uint mask 0x000F\n\
                       \x20 0x1 = sub uint mask 0x00F0 uint mask 0x000F\n\
                       }\n\
                       }\n";
    assert_eq!(listing(description, vec![0x12, 0x10, 0x34, 0x11]), "add 1 2\nsub 3 4\n");
    assert_eq!(listing(description, vec![0x32, 0x10, 0x34, 0x11]), "add 3 2\nsub 3 4\n");
    assert_eq!(listing(description, vec![0x34, 0x02]), "nop 0x234\n");
}

#[test]
fn upward_branch() {
    let description = "1 byte words\nmask 0xc0\n1 = inc uint 0:5\n2 = jup ubranch 0:5\n}\n";
    assert_eq!(
        listing(description, vec![0x41, 0x42, 0x43, 0x82]),
        "inc 1\nlabel_0x1:\ninc 2\ninc 3\njup label_0x1\n"
    );
}

#[test]
fn forward_branch() {
    let description = "1 byte words\nmask 0xc0\n1 = inc uint 0:5\n0 = jdn dbranch 0:5\n}\n";
    assert_eq!(
        listing(description, vec![0x41, 0x02, 0x43, 0x44]),
        "inc 1\njdn label_0x3\ninc 3\nlabel_0x3:\ninc 4\n"
    );
}

#[test]
fn uncovered_tail() {
    let description = "2 byte nonnative endian words\n12:15\n1 = ld addr 8:11\n}\n";
    assert_eq!(listing(description, vec![0x1a, 0xbc]), "ld 0xa 0xbc\n");
}

#[test]
fn diagnostics_name_index_and_word() {
    assert_eq!(GenLabelsErr::Unrecognized(0, 0xc0).message(), "[At 0x0] Unknown instruction: 0xc0");
    assert_eq!(GenLabelsErr::IO(0x1f).message(), "[At 0x1f] Internal I/O error: could not get next instruction");
    let description = "1 byte words\nmask 0b11000000\n0b01 = inc uint mask 0b00111111\n}\n";
    let is = parse_file(description, false).unwrap();
    let mut br = Binreader::new(is.wordsize, vec![0xc0], is.endian_little).unwrap();
    let mut tree = BranchTree::new();
    let mut out = String::new();
    let err = deassemble_file(&mut br, &is, &mut tree, &mut out).unwrap_err();
    let text = err.message();
    assert!(text.contains("0x0") && text.contains("0xc0"), "{}", text);
    assert_eq!(text, "[At 0x0] Unknown instruction: 0xc0");
}

#[test]
fn parse_errors_in_words() {
    assert_eq!(ErrType::ZeroWordsize.message(), "Word size cannot be 0");
    assert_eq!(ErrType::Other.message(), "Malformed line");
    assert_eq!(ErrType::UnknownFormat("float".to_string()).message(), "Unrecognized format: \"float\"");
    assert_eq!(
        ErrType::ParseNumber("q".to_string(), NumErr::InvalidDigit).message(),
        "Couldn't parse \"q\" as a number: invalid digit found in string.\nPrefix numbers with '0b' for binary or '0x' for hexadecimal. Numbers are base 10 otherwise."
    );
    assert_eq!(ErrType::ExpectedNumber("<<".to_string()).message(), "Expected a number after \"<<\", found end of line");
}
