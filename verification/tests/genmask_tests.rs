use disasm::bits::Bitmask;
use disasm::parse;

#[test]
fn test_genmask() {
    let result: (Bitmask, usize);
    if let Some(m) = parse::gen_mask(&vec!["mask", "0b1101"], 0, 0) {
        result = m;
    } else {
        assert!(0 == 1);
        return;
    }
    assert!(result == (0b1101, 2), "Actual: ({:#b},{})", result.0, result.1);
}

#[test]
fn test_genmask_bits() {
    let result: (Bitmask, usize);
    if let Some(m) = parse::gen_mask(&vec!["0+1:2+15"], 0, 2) {
        result = m;
    } else {
        assert!(0 == 1);
        return;
    }
    assert!(
        result == (0b1110000000000001, 1),
        "Actual: ({:#b},{})",
        result.0,
        result.1
    );
}
