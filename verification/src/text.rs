//! Text helpers: the characters of a string, and numbers written out in
//! binary, decimal and hexadecimal.

use vstd::prelude::*;
use vstd::string::StringExecFns;

verus! {

/// The characters of `s`, one by one.
pub fn str_chars(s: &str) -> (v: Vec<char>)
    ensures
        v@ == s@,
{
    let mut v: Vec<char> = Vec::new();
    for c in it: s.chars()
        invariant
            it.seq() == s@,
            v@ == it.seq().take(it.index() as int),
    {
        v.push(c);
    }
    proof {
        assert(v@ =~= s@);
    }
    v
}

/// The character for the digit `d` in bases up to 16, in lower case.
pub open spec fn spec_digit_char(d: nat) -> char {
    if d == 0 {
        '0'
    } else if d == 1 {
        '1'
    } else if d == 2 {
        '2'
    } else if d == 3 {
        '3'
    } else if d == 4 {
        '4'
    } else if d == 5 {
        '5'
    } else if d == 6 {
        '6'
    } else if d == 7 {
        '7'
    } else if d == 8 {
        '8'
    } else if d == 9 {
        '9'
    } else if d == 10 {
        'a'
    } else if d == 11 {
        'b'
    } else if d == 12 {
        'c'
    } else if d == 13 {
        'd'
    } else if d == 14 {
        'e'
    } else {
        'f'
    }
}

/// The digits of `v` in `base`, most significant first, without leading
/// zeros; zero is written as a single `0`.
pub open spec fn spec_digits(v: nat, base: nat) -> Seq<char>
    recommends
        2 <= base <= 16,
    decreases v,
    via spec_digits_decreases
{
    if v < base || base < 2 {
        seq![spec_digit_char(v)]
    } else {
        spec_digits(v / base, base).push(spec_digit_char(v % base))
    }
}

#[via_fn]
proof fn spec_digits_decreases(v: nat, base: nat) {
    if !(v < base || base < 2) {
        vstd::arithmetic::div_mod::lemma_div_decreases(v as int, base as int);
    }
}

/// `v` in hexadecimal with the prefix `0x`.
pub open spec fn spec_hex(v: nat) -> Seq<char> {
    seq!['0', 'x'] + spec_digits(v, 16)
}

/// `v` in binary with the prefix `0b`.
pub open spec fn spec_bin(v: nat) -> Seq<char> {
    seq!['0', 'b'] + spec_digits(v, 2)
}

/// `v` in decimal.
pub open spec fn spec_dec(v: nat) -> Seq<char> {
    spec_digits(v, 10)
}

/// `t` in decimal, with a minus sign in front if it is negative.
pub open spec fn spec_signed(t: int) -> Seq<char> {
    if t < 0 {
        seq!['-'] + spec_digits((-t) as nat, 10)
    } else {
        spec_digits(t as nat, 10)
    }
}

/// The name of the label at instruction index `target`.
pub open spec fn spec_label(target: nat) -> Seq<char> {
    seq!['l', 'a', 'b', 'e', 'l', '_'] + spec_hex(target)
}

fn digit_str(d: u64) -> (s: &'static str)
    requires
        d < 16,
    ensures
        s@ == seq![spec_digit_char(d as nat)],
{
    proof {
        reveal_strlit("0");
        reveal_strlit("1");
        reveal_strlit("2");
        reveal_strlit("3");
        reveal_strlit("4");
        reveal_strlit("5");
        reveal_strlit("6");
        reveal_strlit("7");
        reveal_strlit("8");
        reveal_strlit("9");
        reveal_strlit("a");
        reveal_strlit("b");
        reveal_strlit("c");
        reveal_strlit("d");
        reveal_strlit("e");
        reveal_strlit("f");
    }
    let s = if d == 0 {
        "0"
    } else if d == 1 {
        "1"
    } else if d == 2 {
        "2"
    } else if d == 3 {
        "3"
    } else if d == 4 {
        "4"
    } else if d == 5 {
        "5"
    } else if d == 6 {
        "6"
    } else if d == 7 {
        "7"
    } else if d == 8 {
        "8"
    } else if d == 9 {
        "9"
    } else if d == 10 {
        "a"
    } else if d == 11 {
        "b"
    } else if d == 12 {
        "c"
    } else if d == 13 {
        "d"
    } else if d == 14 {
        "e"
    } else {
        "f"
    };
    proof {
        assert(s@ =~= seq![spec_digit_char(d as nat)]);
    }
    s
}

/// Appends the digits of `v` in `base` to `out`.
pub fn push_digits(out: &mut String, v: u64, base: u64)
    requires
        2 <= base <= 16,
    ensures
        final(out)@ == old(out)@ + spec_digits(v as nat, base as nat),
    decreases v,
{
    if v >= base {
        proof {
            vstd::arithmetic::div_mod::lemma_div_decreases(v as int, base as int);
        }
        push_digits(out, v / base, base);
    }
    let ghost before = out@;
    out.append(digit_str(v % base));
    proof {
        let last = seq![spec_digit_char((v % base) as nat)];
        assert(out@ == before + last);
        if v < base {
            vstd::arithmetic::div_mod::lemma_small_mod(v as nat, base as nat);
            assert(spec_digits(v as nat, base as nat) =~= last);
        } else {
            let front = spec_digits((v / base) as nat, base as nat);
            assert(before == old(out)@ + front);
            assert(spec_digits(v as nat, base as nat) =~= front + last);
            assert((old(out)@ + front) + last =~= old(out)@ + (front + last));
        }
    }
}

/// Appends `v` in hexadecimal, with the prefix `0x`, to `out`.
pub fn push_hex(out: &mut String, v: u64)
    ensures
        final(out)@ == old(out)@ + spec_hex(v as nat),
{
    proof {
        reveal_strlit("0x");
    }
    out.append("0x");
    push_digits(out, v, 16);
    proof {
        assert(old(out)@ + "0x"@ + spec_digits(v as nat, 16) =~= old(out)@ + spec_hex(v as nat));
    }
}

/// Appends `v` in binary, with the prefix `0b`, to `out`.
pub fn push_bin(out: &mut String, v: u64)
    ensures
        final(out)@ == old(out)@ + spec_bin(v as nat),
{
    proof {
        reveal_strlit("0b");
    }
    out.append("0b");
    push_digits(out, v, 2);
    proof {
        assert(old(out)@ + "0b"@ + spec_digits(v as nat, 2) =~= old(out)@ + spec_bin(v as nat));
    }
}

/// Appends `v` in decimal to `out`.
pub fn push_dec(out: &mut String, v: u64)
    ensures
        final(out)@ == old(out)@ + spec_dec(v as nat),
{
    push_digits(out, v, 10);
}

/// Appends `t` in decimal to `out`, with a minus sign if it is negative.
pub fn push_signed(out: &mut String, t: i64)
    ensures
        final(out)@ == old(out)@ + spec_signed(t as int),
{
    if t < 0 {
        proof {
            reveal_strlit("-");
        }
        out.append("-");
        let magnitude: u64 = (-(t + 1)) as u64 + 1;
        push_digits(out, magnitude, 10);
        proof {
            assert(old(out)@ + "-"@ + spec_digits(magnitude as nat, 10) =~= old(out)@
                + spec_signed(t as int));
        }
    } else {
        push_digits(out, t as u64, 10);
    }
}

/// Appends the name of the label at instruction index `target` to `out`.
pub fn push_label(out: &mut String, target: u64)
    ensures
        final(out)@ == old(out)@ + spec_label(target as nat),
{
    proof {
        reveal_strlit("label_");
    }
    out.append("label_");
    push_hex(out, target);
    proof {
        assert(old(out)@ + "label_"@ + spec_hex(target as nat) =~= old(out)@ + spec_label(
            target as nat,
        ));
    }
}

} // verus!
