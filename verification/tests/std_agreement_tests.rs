use disasm::bits::{minimize, reverse, twoscomp, wordt_from_be, wordt_from_le};
use disasm::parse::{parse_number, split_lines, split_words};
use disasm::text::{push_bin, push_dec, push_hex, push_signed};

const SAMPLES: [u64; 9] = [0, 1, 9, 10, 15, 16, 0xdead_beef, 1 << 63, u64::MAX];

#[test]
fn white_space_is_what_the_standard_library_calls_so() {
    for code in 0..=0x10ffffu32 {
        if let Some(c) = char::from_u32(code) {
            let line = format!("a{}b", c);
            let expected: Vec<&str> = line.split_whitespace().collect();
            assert_eq!(split_words(&line), expected, "U+{:04X}", code);
        }
    }
}

#[test]
fn words_are_split_as_the_standard_library_splits() {
    for line in ["", " ", "a", " a ", "a  b\tc\r", "\u{3000}x\u{2003}y", "0b01 = inc uint mask 0b00111111"] {
        let expected: Vec<&str> = line.split_whitespace().collect();
        assert_eq!(split_words(line), expected);
    }
}

#[test]
fn lines_are_cut_at_line_feeds() {
    for text in ["", "\n", "a", "a\n", "a\nb", "a\n\n", "\n\na", "a\r\nb\r\n"] {
        let expected: Vec<String> = text.lines().map(|l| l.to_string()).collect();
        let found: Vec<String> = split_lines(text).iter().map(|l| l.trim_end_matches('\r').to_string()).collect();
        assert_eq!(found, expected, "{:?}", text);
    }
}

#[test]
fn digits_are_what_the_standard_library_takes() {
    for code in 0..=0x2ffu32 {
        if let Some(c) = char::from_u32(code) {
            for (prefix, radix) in [("", 10), ("0b", 2), ("0x", 16)] {
                let digits = format!("1{}", c);
                let expected = u64::from_str_radix(&digits, radix).ok();
                assert_eq!(parse_number(&format!("{}{}", prefix, digits)).ok(), expected, "{:?} in base {}", digits, radix);
            }
        }
    }
}

#[test]
fn numbers_are_written_as_the_standard_library_writes() {
    for v in SAMPLES {
        let mut out = String::new();
        push_hex(&mut out, v);
        assert_eq!(out, format!("{:#x}", v));
        let mut out = String::new();
        push_bin(&mut out, v);
        assert_eq!(out, format!("{:#b}", v));
        let mut out = String::new();
        push_dec(&mut out, v);
        assert_eq!(out, format!("{}", v));
        let mut out = String::new();
        push_signed(&mut out, v as i64);
        assert_eq!(out, format!("{}", v as i64));
    }
}

#[test]
fn bit_functions_agree_with_the_standard_library() {
    for v in SAMPLES {
        assert_eq!(wordt_from_le(&v.to_le_bytes().to_vec()), v);
        assert_eq!(wordt_from_be(&v.to_be_bytes().to_vec()), v);
        assert_eq!(reverse(&v, 8), v.reverse_bits());
        assert_eq!(reverse(&(v & 0xffff), 2), ((v & 0xffff) as u16).reverse_bits() as u64);
        assert_eq!(twoscomp((v, 64)), v as i64);
        assert_eq!(twoscomp((v, 16)), (v as u16) as i16 as i64);
        assert_eq!(minimize(v, u64::MAX), (v, 64));
        for m in SAMPLES {
            assert_eq!(minimize(v, m).1, m.count_ones() as u64);
        }
    }
}
