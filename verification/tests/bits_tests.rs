use disasm::bits;

#[test]
fn test_reverse() {
    let a: bits::Wordt = 0b01000000000000000000000000000001;
    let result = bits::reverse(&a, 4);
    assert!(result == 0b10000000000000000000000000000010, "actual: {:#b}", result);
}

#[test]
fn test_minimize() {
    let result = bits::minimize(0b10000011, 0b11000011);
    let maxbit: bits::Wordt = 1 << (bits::Wordt::BITS - 1);
    assert!(
        result.0 == 0b1011 && result.1 == 4,
        "Actual: ({:#b},{}); MAXBIT={:#b}",
        result.0,
        result.1,
        maxbit
    );
}

#[test]
fn test_align() {
    let result = bits::align(0b1011, 0b11000011);
    assert!(result == 0b10000011, "Actual: {:#b}", result);
}

#[test]
fn test_twoscomp() {
    let result = bits::twoscomp((0b1011, 4));
    assert!(result == -5, "Actual: {:#b}={}", result, result);
    assert!(bits::twoscomp((0b011, 3)) == 3);
}
