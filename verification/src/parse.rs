//! The description parser: it compiles the text that describes an
//! instruction set into the trie that the decoder walks.
//!
//! A description is read line by line. Each line is cut into words at white
//! space; blank lines and lines whose first word starts with `#` are
//! skipped. The first line that is left is the header, the second the mask
//! of the outermost table, and every later one declares an instruction,
//! opens a nested table or closes the innermost open table.

use vstd::prelude::*;
use vstd::string::{StrSliceExecFns, StringExecFns};
use vstd::arithmetic::power2::{pow2, lemma2_to64, lemma2_to64_rest, lemma_pow2_strictly_increases};
use std::collections::HashMap;
use crate::bits::{Wordt, Bitmask, BitOp, BitOpType, align, spec_align, spec_reverse_word, lemma_align_under_mask};
use crate::instrset::{
    FieldView, Fmt, FmtType, Instrfmt, Instrset, InstrsetView, LeafView, Maskmap, Node, NodeView,
    TrieView, leaf_view, wf_instrset, wf_leaf, wf_trie,
};
use crate::text::str_chars;

verus! {

/// Why a word is not a number.
#[derive(Clone, Copy, Debug, PartialEq, Eq, Structural)]
pub enum NumErr {
    /// The word holds no digit at all.
    Empty,
    /// The word holds a character that is no digit of the base, or only a
    /// sign.
    InvalidDigit,
    /// The number does not fit in a word.
    PosOverflow,
}

impl NumErr {
    /// The reason in words.
    pub open spec fn spec_message(&self) -> Seq<char> {
        match self {
            NumErr::Empty => "cannot parse integer from empty string"@,
            NumErr::InvalidDigit => "invalid digit found in string"@,
            NumErr::PosOverflow => "number too large to fit in target type"@,
        }
    }

    /// Says the reason in words.
    pub fn message(&self) -> (r: String)
        ensures
            r@ == self.spec_message(),
    {
        match self {
            NumErr::Empty => String::from_str("cannot parse integer from empty string"),
            NumErr::InvalidDigit => String::from_str("invalid digit found in string"),
            NumErr::PosOverflow => String::from_str("number too large to fit in target type"),
        }
    }
}

/// The value of `c` as a digit of base `radix`: `0` to `9`, then the
/// letters in either case from 10 on. None when `c` is no such digit.
pub open spec fn spec_digit_value(c: char, radix: nat) -> Option<nat> {
    let u = c as nat;
    if 48 <= u <= 57 && u - 48 < radix {
        Some((u - 48) as nat)
    } else if 97 <= u <= 122 && u - 87 < radix {
        Some((u - 87) as nat)
    } else if 65 <= u <= 90 && u - 55 < radix {
        Some((u - 55) as nat)
    } else {
        None
    }
}

/// The number that the digits denote in base `radix`, read from the left.
/// The first character that is no digit, or at which the number outgrows a
/// word, decides the error.
pub open spec fn spec_accumulate(digits: Seq<char>, radix: nat) -> Result<nat, NumErr>
    decreases digits.len(),
{
    if digits.len() == 0 {
        Ok(0)
    } else {
        match spec_accumulate(digits.drop_last(), radix) {
            Err(e) => Err(e),
            Ok(v) => match spec_digit_value(digits.last(), radix) {
                None => Err(NumErr::InvalidDigit),
                Some(d) => if v * radix + d > u64::MAX {
                    Err(NumErr::PosOverflow)
                } else {
                    Ok(v * radix + d)
                },
            },
        }
    }
}

/// The number that `s` denotes in base `radix`: an optional `+` and at
/// least one digit.
pub open spec fn spec_from_radix(s: Seq<char>, radix: nat) -> Result<Wordt, NumErr> {
    if s.len() == 0 {
        Err(NumErr::Empty)
    } else if s.len() == 1 && (s[0] == '+' || s[0] == '-') {
        Err(NumErr::InvalidDigit)
    } else {
        let digits = if s[0] == '+' {
            s.skip(1)
        } else {
            s
        };
        match spec_accumulate(digits, radix) {
            Ok(v) => Ok(v as Wordt),
            Err(e) => Err(e),
        }
    }
}

/// The number that the word `s` denotes: binary after `0b`, hexadecimal
/// after `0x`, decimal otherwise.
pub open spec fn spec_parse_number(s: Seq<char>) -> Result<Wordt, NumErr> {
    if s.len() >= 2 && s[0] == '0' && s[1] == 'b' {
        spec_from_radix(s.skip(2), 2)
    } else if s.len() >= 2 && s[0] == '0' && s[1] == 'x' {
        spec_from_radix(s.skip(2), 16)
    } else {
        spec_from_radix(s, 10)
    }
}

fn digit_value(c: char, radix: u64) -> (r: Option<u64>)
    requires
        radix <= 36,
    ensures
        r == match spec_digit_value(c, radix as nat) {
            Some(d) => Some(d as u64),
            None => None,
        },
{
    let u: u32 = c as u32;
    let d: u64 = if 48 <= u && u <= 57 {
        (u - 48) as u64
    } else if 97 <= u && u <= 122 {
        (u - 87) as u64
    } else if 65 <= u && u <= 90 {
        (u - 55) as u64
    } else {
        return None;
    };
    if d < radix {
        Some(d)
    } else {
        None
    }
}

proof fn lemma_error_sticks(digits: Seq<char>, k: int, radix: nat)
    requires
        0 <= k <= digits.len(),
        spec_accumulate(digits.take(k), radix) is Err,
    ensures
        spec_accumulate(digits, radix) == spec_accumulate(digits.take(k), radix),
    decreases digits.len(),
{
    if k == digits.len() {
        assert(digits.take(k) =~= digits);
    } else {
        assert(digits.drop_last().take(k) =~= digits.take(k));
        lemma_error_sticks(digits.drop_last(), k, radix);
    }
}

/// Reads the characters of `s` from position `skip` on as a number in base
/// `radix`.
fn from_radix(s: &Vec<char>, skip: usize, radix: u64) -> (r: Result<Wordt, NumErr>)
    requires
        skip <= s.len(),
        2 <= radix <= 36,
    ensures
        r == spec_from_radix(s@.skip(skip as int), radix as nat),
{
    let ghost body = s@.skip(skip as int);
    let len = s.len();
    if skip == len {
        return Err(NumErr::Empty);
    }
    if len - skip == 1 && (s[skip] == '+' || s[skip] == '-') {
        return Err(NumErr::InvalidDigit);
    }
    let first: usize = if s[skip] == '+' {
        skip + 1
    } else {
        skip
    };
    let ghost digits = s@.skip(first as int);
    proof {
        assert(body[0] == s@[skip as int]);
        if s@[skip as int] == '+' {
            assert(body.skip(1) =~= digits);
        }
        assert(digits.take(0) =~= Seq::<char>::empty());
    }
    let mut acc: u64 = 0;
    let mut i: usize = first;
    while i < len
        invariant
            first <= i <= len,
            len == s.len(),
            digits == s@.skip(first as int),
            2 <= radix <= 36,
            spec_from_radix(s@.skip(skip as int), radix as nat) == (match spec_accumulate(
                digits,
                radix as nat,
            ) {
                Ok(v) => Ok::<Wordt, NumErr>(v as Wordt),
                Err(e) => Err(e),
            }),
            spec_accumulate(digits.take(i - first), radix as nat) == Ok::<nat, NumErr>(acc as nat),
        decreases len - i,
    {
        proof {
            assert(digits.take(i - first + 1).drop_last() =~= digits.take(i - first));
            assert(digits.take(i - first + 1).last() == s@[i as int]);
        }
        let d = match digit_value(s[i], radix) {
            Some(d) => d,
            None => {
                proof {
                    lemma_error_sticks(digits, i - first + 1, radix as nat);
                }
                return Err(NumErr::InvalidDigit);
            },
        };
        let next = match acc.checked_mul(radix) {
            Some(scaled) => scaled.checked_add(d),
            None => None,
        };
        acc = match next {
            Some(v) => v,
            None => {
                proof {
                    lemma_error_sticks(digits, i - first + 1, radix as nat);
                }
                return Err(NumErr::PosOverflow);
            },
        };
        i = i + 1;
    }
    proof {
        assert(digits.take(len - first) =~= digits);
    }
    Ok(acc)
}

/// Reads the characters of `s` as a number: binary after `0b`, hexadecimal
/// after `0x`, decimal otherwise.
pub fn number_of(s: &Vec<char>) -> (r: Result<Wordt, NumErr>)
    ensures
        r == spec_parse_number(s@),
{
    if s.len() >= 2 && s[0] == '0' && s[1] == 'b' {
        from_radix(s, 2, 2)
    } else if s.len() >= 2 && s[0] == '0' && s[1] == 'x' {
        from_radix(s, 2, 16)
    } else {
        proof {
            assert(s@.skip(0) =~= s@);
        }
        from_radix(s, 0, 10)
    }
}

/// Reads the word `text` as a number: binary after `0b`, hexadecimal after
/// `0x`, decimal otherwise.
pub fn parse_number(text: &str) -> (r: Result<Wordt, NumErr>)
    ensures
        r == spec_parse_number(text@),
{
    let chars = str_chars(text);
    number_of(&chars)
}

/// The position of the first `c` in `s`, or the length of `s` if there is
/// none.
pub open spec fn spec_index_of(s: Seq<char>, c: char) -> int
    decreases s.len(),
{
    if s.len() == 0 || s[0] == c {
        0
    } else {
        1 + spec_index_of(s.drop_first(), c)
    }
}

proof fn lemma_index_of(s: Seq<char>, c: char, k: int)
    requires
        0 <= k <= s.len(),
        forall|j: int| 0 <= j < k ==> s[j] != c,
        k == s.len() || s[k] == c,
    ensures
        spec_index_of(s, c) == k,
    decreases k,
{
    if k > 0 {
        let rest = s.drop_first();
        assert forall|j: int| 0 <= j < k - 1 implies rest[j] != c by {
            assert(rest[j] == s[j + 1]);
        }
        lemma_index_of(rest, c, k - 1);
    }
}

/// Finds the first `c` among the characters of `s` from position `from` on.
fn find_char(s: &Vec<char>, c: char, from: usize, to: usize) -> (k: usize)
    requires
        from <= to <= s.len(),
    ensures
        from <= k <= to,
        k - from == spec_index_of(s@.subrange(from as int, to as int), c),
{
    let mut k: usize = from;
    while k < to && s[k] != c
        invariant
            from <= k <= to <= s.len(),
            forall|j: int| from <= j < k ==> s@[j] != c,
        decreases to - k,
    {
        k = k + 1;
    }
    proof {
        lemma_index_of(s@.subrange(from as int, to as int), c, k - from);
    }
    k
}

/// Copies the characters of `s` from position `from` up to `to`.
fn slice_chars(s: &Vec<char>, from: usize, to: usize) -> (r: Vec<char>)
    requires
        from <= to <= s.len(),
    ensures
        r@ == s@.subrange(from as int, to as int),
{
    let mut r: Vec<char> = Vec::new();
    let mut k: usize = from;
    while k < to
        invariant
            from <= k <= to <= s.len(),
            r@ == s@.subrange(from as int, k as int),
        decreases to - k,
    {
        r.push(s[k]);
        proof {
            assert(r@ =~= s@.subrange(from as int, k + 1));
        }
        k = k + 1;
    }
    r
}

/// Tells whether two strings hold the same characters.
pub fn str_eq(a: &str, b: &str) -> (r: bool)
    ensures
        r == (a@ == b@),
{
    let x = str_chars(a);
    let y = str_chars(b);
    if x.len() != y.len() {
        return false;
    }
    let mut k: usize = 0;
    while k < x.len()
        invariant
            k <= x.len(),
            x.len() == y.len(),
            x@ == a@,
            y@ == b@,
            forall|j: int| 0 <= j < k ==> x@[j] == y@[j],
        decreases x.len() - k,
    {
        if x[k] != y[k] {
            return false;
        }
        k = k + 1;
    }
    proof {
        assert(x@ =~= y@);
    }
    true
}

/// The mask with exactly the bits `lo` to `hi` set, both included.
pub open spec fn spec_bit_range(lo: nat, hi: nat) -> nat
    recommends
        lo <= hi,
{
    (pow2(hi + 1) - pow2(lo)) as nat
}

/// The mask that one range denotes: `a:b` stands for the bits between `a`
/// and `b`, both included and in either order, and a single number for
/// that one bit. There is no mask when a number is malformed, when a bit
/// lies outside the word, or when the range has more than one colon.
pub open spec fn spec_parse_range(s: Seq<char>) -> Option<Bitmask> {
    let k = spec_index_of(s, ':');
    if k < s.len() {
        let a = s.take(k);
        let b = s.skip(k + 1);
        if spec_index_of(b, ':') < b.len() {
            None
        } else {
            match (spec_parse_number(a), spec_parse_number(b)) {
                (Ok(x), Ok(y)) => if x < 64 && y < 64 {
                    if x <= y {
                        Some(spec_bit_range(x as nat, y as nat) as Bitmask)
                    } else {
                        Some(spec_bit_range(y as nat, x as nat) as Bitmask)
                    }
                } else {
                    None
                },
                _ => None,
            }
        }
    } else {
        match spec_parse_number(s) {
            Ok(x) => if x < 64 {
                Some(spec_bit_range(x as nat, x as nat) as Bitmask)
            } else {
                None
            },
            Err(_) => None,
        }
    }
}

/// The mask that a list of ranges joined by `+` denotes: the union of the
/// masks of its ranges, if each of them denotes one.
pub open spec fn spec_range_list(s: Seq<char>) -> Option<Bitmask>
    decreases s.len(),
{
    let k = spec_index_of(s, '+');
    if 0 <= k < s.len() {
        match (spec_parse_range(s.take(k)), spec_range_list(s.skip(k + 1))) {
            (Some(a), Some(b)) => Some(a | b),
            _ => None,
        }
    } else {
        spec_parse_range(s)
    }
}

/// Builds the mask with the bits `lo` to `hi` set.
fn bit_range(lo: u64, hi: u64) -> (r: Bitmask)
    requires
        lo <= hi < 64,
    ensures
        r == spec_bit_range(lo as nat, hi as nat),
{
    proof {
        lemma2_to64();
        lemma2_to64_rest();
        vstd::bits::lemma_u64_pow2_no_overflow(lo as nat);
        vstd::bits::lemma_u64_shl_is_mul(1, lo);
        if lo < hi + 1 {
            lemma_pow2_strictly_increases(lo as nat, (hi + 1) as nat);
        }
        if hi < 63 {
            vstd::bits::lemma_u64_pow2_no_overflow((hi + 1) as nat);
            vstd::bits::lemma_u64_shl_is_mul(1, (hi + 1) as u64);
        }
    }
    let upper: u64 = if hi == 63 {
        u64::MAX
    } else {
        (1u64 << (hi + 1)) - 1
    };
    let lower: u64 = (1u64 << lo) - 1;
    upper - lower
}

/// Reads the characters of `s` between `from` and `to` as one range.
fn range_of(s: &Vec<char>, from: usize, to: usize) -> (r: Option<Bitmask>)
    requires
        from <= to <= s.len(),
    ensures
        r == spec_parse_range(s@.subrange(from as int, to as int)),
{
    let ghost part = s@.subrange(from as int, to as int);
    let k = find_char(s, ':', from, to);
    if k < to {
        let again = find_char(s, ':', k + 1, to);
        proof {
            assert(part.take(k - from) =~= s@.subrange(from as int, k as int));
            assert(part.skip(k - from + 1) =~= s@.subrange(k + 1, to as int));
        }
        if again < to {
            return None;
        }
        let a = slice_chars(s, from, k);
        let b = slice_chars(s, k + 1, to);
        let x = match number_of(&a) {
            Ok(x) => x,
            Err(_) => {
                return None;
            },
        };
        let y = match number_of(&b) {
            Ok(y) => y,
            Err(_) => {
                return None;
            },
        };
        if x >= 64 || y >= 64 {
            return None;
        }
        if x <= y {
            Some(bit_range(x, y))
        } else {
            Some(bit_range(y, x))
        }
    } else {
        let whole = slice_chars(s, from, to);
        match number_of(&whole) {
            Ok(x) => if x < 64 {
                Some(bit_range(x, x))
            } else {
                None
            },
            Err(_) => None,
        }
    }
}

/// Reads the characters of `s` from position `from` on as a list of ranges
/// joined by `+`.
fn range_list_from(s: &Vec<char>, from: usize) -> (r: Option<Bitmask>)
    requires
        from <= s.len(),
    ensures
        r == spec_range_list(s@.skip(from as int)),
    decreases s.len() - from,
{
    let ghost rest = s@.skip(from as int);
    let len = s.len();
    let k = find_char(s, '+', from, len);
    proof {
        assert(s@.subrange(from as int, len as int) =~= rest);
        assert(rest.take(k - from) =~= s@.subrange(from as int, k as int));
    }
    if k < len {
        proof {
            assert(rest.skip(k - from + 1) =~= s@.skip(k + 1));
        }
        let a = match range_of(s, from, k) {
            Some(a) => a,
            None => {
                return None;
            },
        };
        match range_list_from(s, k + 1) {
            Some(b) => Some(a | b),
            None => None,
        }
    } else {
        range_of(s, from, len)
    }
}

/// Reads the word `text` as one range of bits.
pub fn parse_range(text: &str) -> (r: Option<Bitmask>)
    ensures
        r == spec_parse_range(text@),
{
    let chars = str_chars(text);
    proof {
        assert(chars@.subrange(0, chars@.len() as int) =~= chars@);
    }
    range_of(&chars, 0, chars.len())
}

/// The contents of the words of a line.
pub open spec fn spec_texts(words: Seq<&str>) -> Seq<Seq<char>> {
    Seq::new(words.len(), |i: int| words[i]@)
}

/// A mask as the description means it: reversed within `8 * rev` bits when
/// `rev` is not zero, as it stands otherwise.
pub open spec fn spec_reversed(mask: Bitmask, rev: nat) -> Bitmask {
    if rev > 0 {
        spec_reverse_word(mask, rev)
    } else {
        mask
    }
}

/// The mask that starts at word `start` of a line, with the number of words
/// it takes: `mask` and a number take two words, a list of ranges takes
/// one. A mask that selects no bit is handed back like any other; it is
/// for the line that holds it to refuse it.
pub open spec fn spec_gen_mask(words: Seq<Seq<char>>, start: int, rev: nat) -> Option<
    (Bitmask, usize),
> {
    if start < 0 || start >= words.len() {
        None
    } else if words[start] == "mask"@ {
        if start + 1 < words.len() {
            match spec_parse_number(words[start + 1]) {
                Ok(n) => Some((spec_reversed(n, rev), 2usize)),
                Err(_) => None,
            }
        } else {
            None
        }
    } else {
        match spec_range_list(words[start]) {
            Some(m) => Some((spec_reversed(m, rev), 1usize)),
            None => None,
        }
    }
}

/// Reads the mask that starts at word `start` of the line `v`, and tells
/// how many words it takes. Every mask is reversed within `reverse` bytes
/// when `reverse` is not zero.
pub fn gen_mask(v: &Vec<&str>, start: usize, reverse: usize) -> (r: Option<(Bitmask, usize)>)
    ensures
        r == spec_gen_mask(spec_texts(v@), start as int, reverse as nat),
{
    if start >= v.len() {
        return None;
    }
    let mask: Bitmask;
    let taken: usize;
    if str_eq(v[start], "mask") {
        if start + 1 >= v.len() {
            return None;
        }
        mask = match parse_number(v[start + 1]) {
            Ok(n) => n,
            Err(_) => {
                return None;
            },
        };
        taken = 2;
    } else {
        let chars = str_chars(v[start]);
        proof {
            assert(chars@.skip(0) =~= chars@);
        }
        mask = match range_list_from(&chars, 0) {
            Some(m) => m,
            None => {
                return None;
            },
        };
        taken = 1;
    }
    if reverse > 0 {
        Some((crate::bits::reverse(&mask, reverse), taken))
    } else {
        Some((mask, taken))
    }
}

/// The words of the mask that starts at word `start` and takes `taken`
/// words, with a space between them.
pub open spec fn spec_mask_text(words: Seq<Seq<char>>, start: int, taken: usize) -> Seq<char> {
    if taken == 2 {
        words[start] + seq![' '] + words[start + 1]
    } else {
        words[start]
    }
}

/// Writes out the words of the mask that starts at word `start` and takes
/// `taken` words.
fn mask_text(words: &Vec<&str>, start: usize, taken: usize) -> (r: String)
    requires
        taken == 1 || taken == 2,
        start + taken <= words.len(),
    ensures
        r@ == spec_mask_text(spec_texts(words@), start as int, taken),
{
    let mut r = String::from_str(words[start]);
    if taken == 2 {
        proof {
            reveal_strlit(" ");
            assert(" "@ =~= seq![' ']);
        }
        r.append(" ");
        r.append(words[start + 1]);
    }
    r
}

/// Why a description was refused.
#[derive(Debug, PartialEq, Eq)]
pub enum ErrType {
    /// The header is not a word size declaration; holds the line.
    NoWordsize(String),
    /// No mask stands where one is expected; holds what was found.
    NoMask(String),
    /// The header declares words of no bytes.
    ZeroWordsize,
    /// The word size has no unit; holds the number.
    NoWordsizeUnits(String),
    /// A mask selects no bit; holds the text of the mask.
    ZeroMask(String),
    /// A word that should be a number is none; holds the word and why.
    ParseNumber(String, NumErr),
    /// A closing brace has no table to close.
    ExtraClosingBrace,
    /// A field has a kind that does not exist; holds the word.
    UnknownFormat(String),
    /// An operation lacks its number; holds the last word of the line.
    ExpectedNumber(String),
    /// The line, or the end of the description, is malformed.
    Other,
}

/// The mathematical content of an [`ErrType`].
pub enum ErrView {
    NoWordsize(Seq<char>),
    NoMask(Seq<char>),
    ZeroWordsize,
    NoWordsizeUnits(Seq<char>),
    ZeroMask(Seq<char>),
    ParseNumber(Seq<char>, NumErr),
    ExtraClosingBrace,
    UnknownFormat(Seq<char>),
    ExpectedNumber(Seq<char>),
    Other,
}

impl View for ErrType {
    type V = ErrView;

    open spec fn view(&self) -> ErrView {
        match self {
            ErrType::NoWordsize(s) => ErrView::NoWordsize(s@),
            ErrType::NoMask(s) => ErrView::NoMask(s@),
            ErrType::ZeroWordsize => ErrView::ZeroWordsize,
            ErrType::NoWordsizeUnits(s) => ErrView::NoWordsizeUnits(s@),
            ErrType::ZeroMask(s) => ErrView::ZeroMask(s@),
            ErrType::ParseNumber(s, why) => ErrView::ParseNumber(s@, *why),
            ErrType::ExtraClosingBrace => ErrView::ExtraClosingBrace,
            ErrType::UnknownFormat(s) => ErrView::UnknownFormat(s@),
            ErrType::ExpectedNumber(s) => ErrView::ExpectedNumber(s@),
            ErrType::Other => ErrView::Other,
        }
    }
}

impl ErrView {
    /// The error in words.
    pub open spec fn spec_message(self) -> Seq<char> {
        match self {
            ErrView::NoWordsize(line) =>
                "Expected word size declaration (like \"4 byte native endian words\") at start of file. Found:\n"@
                    + line,
            ErrView::NoMask(found) =>
                "Expected bit mask for opcodes (like \"mask 0b01110000\" for 3 bit opcodes) here. Found:\n"@
                    + found,
            ErrView::ZeroWordsize => "Word size cannot be 0"@,
            ErrView::NoWordsizeUnits(num) =>
                "Wordsize was not given units; add \"byte\" after: "@ + num,
            ErrView::ZeroMask(mask) => "Bit masks cannot be 0. Erroneous bitmask:\n"@ + mask,
            ErrView::ParseNumber(num, why) => "Couldn't parse \""@ + num + "\" as a number: "@
                + why.spec_message()
                + ".\nPrefix numbers with '0b' for binary or '0x' for hexadecimal. Numbers are base 10 otherwise."@,
            ErrView::ExtraClosingBrace => "Extra closing brace"@,
            ErrView::UnknownFormat(kind) => "Unrecognized format: \""@ + kind + "\""@,
            ErrView::ExpectedNumber(last) => "Expected a number after \""@ + last
                + "\", found end of line"@,
            ErrView::Other => "Malformed line"@,
        }
    }
}

impl ErrType {
    /// Says the error in words.
    pub fn message(&self) -> (r: String)
        ensures
            r@ == self@.spec_message(),
    {
        match self {
            ErrType::NoWordsize(line) => {
                let mut r = String::from_str(
                    "Expected word size declaration (like \"4 byte native endian words\") at start of file. Found:\n",
                );
                r.append(line.as_str());
                r
            },
            ErrType::NoMask(found) => {
                let mut r = String::from_str(
                    "Expected bit mask for opcodes (like \"mask 0b01110000\" for 3 bit opcodes) here. Found:\n",
                );
                r.append(found.as_str());
                r
            },
            ErrType::ZeroWordsize => String::from_str("Word size cannot be 0"),
            ErrType::NoWordsizeUnits(num) => {
                let mut r = String::from_str("Wordsize was not given units; add \"byte\" after: ");
                r.append(num.as_str());
                r
            },
            ErrType::ZeroMask(mask) => {
                let mut r = String::from_str("Bit masks cannot be 0. Erroneous bitmask:\n");
                r.append(mask.as_str());
                r
            },
            ErrType::ParseNumber(num, why) => {
                let mut r = String::from_str("Couldn't parse \"");
                r.append(num.as_str());
                r.append("\" as a number: ");
                let cause = why.message();
                r.append(cause.as_str());
                r.append(
                    ".\nPrefix numbers with '0b' for binary or '0x' for hexadecimal. Numbers are base 10 otherwise.",
                );
                r
            },
            ErrType::ExtraClosingBrace => String::from_str("Extra closing brace"),
            ErrType::UnknownFormat(kind) => {
                let mut r = String::from_str("Unrecognized format: \"");
                r.append(kind.as_str());
                r.append("\"");
                r
            },
            ErrType::ExpectedNumber(last) => {
                let mut r = String::from_str("Expected a number after \"");
                r.append(last.as_str());
                r.append("\", found end of line");
                r
            },
            ErrType::Other => String::from_str("Malformed line"),
        }
    }
}

/// White space as the splitting of lines into words understands it: the
/// characters with the Unicode property `White_Space`.
pub open spec fn spec_is_space(c: char) -> bool {
    let u = c as nat;
    (9 <= u <= 13) || u == 0x20 || u == 0x85 || u == 0xa0 || u == 0x1680 || (0x2000 <= u
        <= 0x200a) || u == 0x2028 || u == 0x2029 || u == 0x202f || u == 0x205f || u == 0x3000
}

fn is_space(c: char) -> (r: bool)
    ensures
        r == spec_is_space(c),
{
    let u: u32 = c as u32;
    (9 <= u && u <= 13) || u == 0x20 || u == 0x85 || u == 0xa0 || u == 0x1680 || (0x2000 <= u
        && u <= 0x200a) || u == 0x2028 || u == 0x2029 || u == 0x202f || u == 0x205f || u
        == 0x3000
}

/// The words of `s` that are complete, and the characters of the word that
/// is still open at the end of `s`.
pub open spec fn spec_split_state(s: Seq<char>) -> (Seq<Seq<char>>, Seq<char>)
    decreases s.len(),
{
    if s.len() == 0 {
        (Seq::empty(), Seq::empty())
    } else {
        let (done, open) = spec_split_state(s.drop_last());
        if spec_is_space(s.last()) {
            if open.len() > 0 {
                (done.push(open), Seq::empty())
            } else {
                (done, open)
            }
        } else {
            (done, open.push(s.last()))
        }
    }
}

/// The words of the line `s`: its longest runs of characters that are not
/// white space, in order.
pub open spec fn spec_split(s: Seq<char>) -> Seq<Seq<char>> {
    let (done, open) = spec_split_state(s);
    if open.len() > 0 {
        done.push(open)
    } else {
        done
    }
}

/// The lines of `s` that a line feed has ended, and the characters after
/// the last line feed.
pub open spec fn spec_lines_state(s: Seq<char>) -> (Seq<Seq<char>>, Seq<char>)
    decreases s.len(),
{
    if s.len() == 0 {
        (Seq::empty(), Seq::empty())
    } else {
        let (done, open) = spec_lines_state(s.drop_last());
        if s.last() == '\n' {
            (done.push(open), Seq::empty())
        } else {
            (done, open.push(s.last()))
        }
    }
}

/// The lines of the text `s`: what stands between line feeds, and what
/// follows the last line feed unless that is nothing.
pub open spec fn spec_lines(s: Seq<char>) -> Seq<Seq<char>> {
    let (done, open) = spec_lines_state(s);
    if open.len() > 0 {
        done.push(open)
    } else {
        done
    }
}

/// Cuts the line into its words.
pub fn split_words<'a>(line: &'a str) -> (r: Vec<&'a str>)
    ensures
        spec_texts(r@) == spec_split(line@),
{
    let chars = str_chars(line);
    let mut words: Vec<&'a str> = Vec::new();
    let mut from: usize = 0;
    let mut i: usize = 0;
    proof {
        assert(chars@.take(0) =~= Seq::<char>::empty());
        assert(spec_texts(words@) =~= Seq::<Seq<char>>::empty());
        assert(chars@.subrange(0, 0) =~= Seq::<char>::empty());
    }
    while i < chars.len()
        invariant
            from <= i <= chars.len(),
            chars@ == line@,
            spec_split_state(chars@.take(i as int)) == (
                spec_texts(words@),
                chars@.subrange(from as int, i as int),
            ),
        decreases chars.len() - i,
    {
        proof {
            assert(chars@.take(i + 1).drop_last() =~= chars@.take(i as int));
        }
        if is_space(chars[i]) {
            if from < i {
                let word = line.substring_char(from, i);
                let ghost before = spec_texts(words@);
                words.push(word);
                proof {
                    assert(spec_texts(words@) =~= before.push(word@));
                }
            }
            from = i + 1;
            proof {
                assert(chars@.subrange(from as int, i + 1) =~= Seq::<char>::empty());
            }
        } else {
            proof {
                assert(chars@.subrange(from as int, i + 1) =~= chars@.subrange(
                    from as int,
                    i as int,
                ).push(chars@[i as int]));
            }
        }
        i = i + 1;
    }
    proof {
        assert(chars@.take(chars@.len() as int) =~= chars@);
    }
    if from < i {
        let word = line.substring_char(from, i);
        let ghost before = spec_texts(words@);
        words.push(word);
        proof {
            assert(spec_texts(words@) =~= before.push(word@));
        }
    }
    words
}

/// Cuts the text into its lines.
pub fn split_lines<'a>(text: &'a str) -> (r: Vec<&'a str>)
    ensures
        spec_texts(r@) == spec_lines(text@),
{
    let chars = str_chars(text);
    let mut lines: Vec<&'a str> = Vec::new();
    let mut from: usize = 0;
    let mut i: usize = 0;
    proof {
        assert(chars@.take(0) =~= Seq::<char>::empty());
        assert(spec_texts(lines@) =~= Seq::<Seq<char>>::empty());
        assert(chars@.subrange(0, 0) =~= Seq::<char>::empty());
    }
    while i < chars.len()
        invariant
            from <= i <= chars.len(),
            chars@ == text@,
            spec_lines_state(chars@.take(i as int)) == (
                spec_texts(lines@),
                chars@.subrange(from as int, i as int),
            ),
        decreases chars.len() - i,
    {
        proof {
            assert(chars@.take(i + 1).drop_last() =~= chars@.take(i as int));
        }
        if chars[i] == '\n' {
            let line = text.substring_char(from, i);
            let ghost before = spec_texts(lines@);
            lines.push(line);
            proof {
                assert(spec_texts(lines@) =~= before.push(line@));
            }
            from = i + 1;
            proof {
                assert(chars@.subrange(from as int, i + 1) =~= Seq::<char>::empty());
            }
        } else {
            proof {
                assert(chars@.subrange(from as int, i + 1) =~= chars@.subrange(
                    from as int,
                    i as int,
                ).push(chars@[i as int]));
            }
        }
        i = i + 1;
    }
    proof {
        assert(chars@.take(chars@.len() as int) =~= chars@);
    }
    if from < i {
        let line = text.substring_char(from, i);
        let ghost before = spec_texts(lines@);
        lines.push(line);
        proof {
            assert(spec_texts(lines@) =~= before.push(line@));
        }
    }
    lines
}

/// The words of a line, each followed by a space.
pub open spec fn spec_join(words: Seq<Seq<char>>) -> Seq<char>
    decreases words.len(),
{
    if words.len() == 0 {
        Seq::empty()
    } else {
        spec_join(words.drop_last()) + words.last() + seq![' ']
    }
}

/// Writes the words of a line one after the other, each followed by a
/// space.
pub fn wordsvec_to_string(words: &Vec<&str>) -> (r: String)
    ensures
        r@ == spec_join(spec_texts(words@)),
{
    let mut ret = String::new();
    let mut i: usize = 0;
    let ghost texts = spec_texts(words@);
    proof {
        reveal_strlit(" ");
        assert(" "@ =~= seq![' ']);
        assert(texts.take(0) =~= Seq::<Seq<char>>::empty());
    }
    while i < words.len()
        invariant
            i <= words.len(),
            texts == spec_texts(words@),
            " "@ == seq![' '],
            ret@ == spec_join(texts.take(i as int)),
        decreases words.len() - i,
    {
        proof {
            assert(texts.take(i + 1).drop_last() =~= texts.take(i as int));
            assert(texts.take(i + 1).last() == words@[i as int]@);
        }
        ret.append(words[i]);
        ret.append(" ");
        i = i + 1;
    }
    proof {
        assert(texts.take(words@.len() as int) =~= texts);
    }
    ret
}

/// What the words between the unit and the closing `words` of a header
/// say: whether the byte order is the native one and whether masks are
/// reversed. There may be `reversed`, and after it `native endian` or
/// `nonnative endian`, each at most once and in this order. None if
/// anything else stands there.
pub open spec fn spec_header_flags(words: Seq<Seq<char>>) -> Option<(bool, bool)> {
    let reversed = words.len() > 3 && words[2] == "reversed"@;
    let at = if reversed {
        3int
    } else {
        2int
    };
    if at == words.len() - 1 {
        Some((true, reversed))
    } else if at + 2 == words.len() - 1 && words[at + 1] == "endian"@ {
        if words[at] == "native"@ {
            Some((true, reversed))
        } else if words[at] == "nonnative"@ {
            Some((false, reversed))
        } else {
            None
        }
    } else {
        None
    }
}

/// What the header line declares: the word size in bytes, whether the byte
/// order is the native one, and whether masks are reversed.
///
/// The line has three to six words and ends in `words`; its first word is
/// the word size, a number that is not zero, and its second is `byte`.
/// Between them may stand `reversed`, then the byte order.
pub open spec fn spec_first_line(words: Seq<Seq<char>>) -> Result<(usize, bool, bool), ErrView> {
    if !(3 <= words.len() <= 6 && words.last() == "words"@) {
        Err(ErrView::NoWordsize(spec_join(words)))
    } else {
        match spec_parse_number(words[0]) {
            Err(why) => Err(ErrView::ParseNumber(words[0], why)),
            Ok(n) => if n == 0 {
                Err(ErrView::ZeroWordsize)
            } else if words[1] != "byte"@ {
                Err(ErrView::NoWordsizeUnits(words[0]))
            } else if n > usize::MAX {
                Err(ErrView::NoWordsize(spec_join(words)))
            } else {
                match spec_header_flags(words) {
                    Some((native, reversed)) => Ok((n as usize, native, reversed)),
                    None => Err(ErrView::NoWordsize(spec_join(words))),
                }
            },
        }
    }
}

/// Reads the header line: the word size in bytes, whether the byte order
/// is the native one, and whether masks are reversed.
pub fn parse_first_line(words: &Vec<&str>) -> (r: Result<(usize, bool, bool), ErrType>)
    ensures
        match r {
            Ok(found) => spec_first_line(spec_texts(words@)) == Ok::<
                (usize, bool, bool),
                ErrView,
            >(found),
            Err(e) => spec_first_line(spec_texts(words@)) == Err::<(usize, bool, bool), ErrView>(
                e@,
            ),
        },
{
    let ghost texts = spec_texts(words@);
    let len = words.len();
    if !(len >= 3 && len <= 6 && str_eq(words[len - 1], "words")) {
        return Err(ErrType::NoWordsize(wordsvec_to_string(words)));
    }
    let n = match parse_number(words[0]) {
        Ok(n) => n,
        Err(why) => {
            return Err(ErrType::ParseNumber(String::from_str(words[0]), why));
        },
    };
    if n == 0 {
        return Err(ErrType::ZeroWordsize);
    }
    if !str_eq(words[1], "byte") {
        return Err(ErrType::NoWordsizeUnits(String::from_str(words[0])));
    }
    if n > usize::MAX as u64 {
        return Err(ErrType::NoWordsize(wordsvec_to_string(words)));
    }
    let wordsize: usize = n as usize;
    let reversed: bool = len > 3 && str_eq(words[2], "reversed");
    let at: usize = if reversed {
        3
    } else {
        2
    };
    if at == len - 1 {
        Ok((wordsize, true, reversed))
    } else if at + 2 == len - 1 && str_eq(words[at + 1], "endian") {
        if str_eq(words[at], "native") {
            Ok((wordsize, true, reversed))
        } else if str_eq(words[at], "nonnative") {
            Ok((wordsize, false, reversed))
        } else {
            Err(ErrType::NoWordsize(wordsvec_to_string(words)))
        }
    } else {
        Err(ErrType::NoWordsize(wordsvec_to_string(words)))
    }
}

/// The mask that the second line declares for the outermost table. The
/// line is a mask and nothing else, and the mask selects at least one bit.
pub open spec fn spec_second_line(words: Seq<Seq<char>>, rev: nat) -> Result<Bitmask, ErrView> {
    match spec_gen_mask(words, 0, rev) {
        Some((mask, taken)) => if mask == 0 {
            Err(ErrView::ZeroMask(spec_mask_text(words, 0, taken)))
        } else if words.len() != taken {
            Err(ErrView::NoMask(spec_join(words)))
        } else {
            Ok(mask)
        },
        None => Err(ErrView::NoMask(spec_join(words))),
    }
}

/// Reads the mask of the outermost table from the second line and stores
/// it in `map`. On an error `map` stays as it was.
pub fn parse_second_line(words: &Vec<&str>, map: &mut Maskmap, reverse: usize) -> (r: Result<
    (),
    ErrType,
>)
    ensures
        final(map).map == old(map).map,
        match r {
            Ok(()) => spec_second_line(spec_texts(words@), reverse as nat) == Ok::<
                Bitmask,
                ErrView,
            >(final(map).mask),
            Err(e) => {
                &&& spec_second_line(spec_texts(words@), reverse as nat) == Err::<
                    Bitmask,
                    ErrView,
                >(e@)
                &&& final(map).mask == old(map).mask
            },
        },
{
    match gen_mask(words, 0, reverse) {
        Some(found) => {
            if found.0 == 0 {
                return Err(ErrType::ZeroMask(mask_text(words, 0, found.1)));
            }
            if words.len() != found.1 {
                return Err(ErrType::NoMask(wordsvec_to_string(words)));
            }
            map.mask = found.0;
            Ok(())
        },
        None => Err(ErrType::NoMask(wordsvec_to_string(words))),
    }
}

/// The operation that a word names.
pub open spec fn spec_op_kind(s: Seq<char>) -> Option<BitOpType> {
    if s == "<<"@ {
        Some(BitOpType::SL)
    } else if s == ">>"@ {
        Some(BitOpType::SR)
    } else if s == "&"@ {
        Some(BitOpType::AND)
    } else if s == "|"@ {
        Some(BitOpType::OR)
    } else if s == "^"@ {
        Some(BitOpType::XOR)
    } else {
        None
    }
}

/// The field kind that a word names.
pub open spec fn spec_fmt_kind(s: Seq<char>) -> Option<FmtType> {
    if s == "addr"@ {
        Some(FmtType::Addr)
    } else if s == "uint"@ {
        Some(FmtType::Unsigned)
    } else if s == "int"@ {
        Some(FmtType::Signed)
    } else if s == "bin"@ {
        Some(FmtType::Binary)
    } else if s == "ubranch"@ {
        Some(FmtType::Ubranch)
    } else if s == "dbranch"@ {
        Some(FmtType::Dbranch)
    } else if s == "ibranch"@ {
        Some(FmtType::Ibranch)
    } else if s == "sbranch"@ {
        Some(FmtType::Sbranch)
    } else if s == "ignore"@ {
        Some(FmtType::Ignore)
    } else {
        None
    }
}

fn op_kind(word: &str) -> (r: Option<BitOpType>)
    ensures
        r == spec_op_kind(word@),
{
    if str_eq(word, "<<") {
        Some(BitOpType::SL)
    } else if str_eq(word, ">>") {
        Some(BitOpType::SR)
    } else if str_eq(word, "&") {
        Some(BitOpType::AND)
    } else if str_eq(word, "|") {
        Some(BitOpType::OR)
    } else if str_eq(word, "^") {
        Some(BitOpType::XOR)
    } else {
        None
    }
}

fn fmt_kind(word: &str) -> (r: Option<FmtType>)
    ensures
        r == spec_fmt_kind(word@),
{
    if str_eq(word, "addr") {
        Some(FmtType::Addr)
    } else if str_eq(word, "uint") {
        Some(FmtType::Unsigned)
    } else if str_eq(word, "int") {
        Some(FmtType::Signed)
    } else if str_eq(word, "bin") {
        Some(FmtType::Binary)
    } else if str_eq(word, "ubranch") {
        Some(FmtType::Ubranch)
    } else if str_eq(word, "dbranch") {
        Some(FmtType::Dbranch)
    } else if str_eq(word, "ibranch") {
        Some(FmtType::Ibranch)
    } else if str_eq(word, "sbranch") {
        Some(FmtType::Sbranch)
    } else if str_eq(word, "ignore") {
        Some(FmtType::Ignore)
    } else {
        None
    }
}

/// The operations that stand from word `i` on: pairs of an operation and a
/// number, up to the first word that names no operation.
pub open spec fn spec_ops(words: Seq<Seq<char>>, i: int) -> Result<Seq<BitOp>, ErrView>
    decreases words.len() - i,
{
    if i < 0 || i >= words.len() {
        Ok(Seq::empty())
    } else {
        match spec_op_kind(words[i]) {
            None => Ok(Seq::empty()),
            Some(typ) => if i + 1 >= words.len() {
                Err(ErrView::ExpectedNumber(words.last()))
            } else {
                match spec_parse_number(words[i + 1]) {
                    Err(why) => Err(ErrView::ParseNumber(words[i + 1], why)),
                    Ok(val) => match spec_ops(words, i + 2) {
                        Err(e) => Err(e),
                        Ok(rest) => Ok(seq![BitOp { typ, val }] + rest),
                    },
                }
            },
        }
    }
}

/// The field that starts at word `at`, and the number of words that it
/// takes after its first. A field is a kind, a mask that selects at least
/// one bit, and any number of operations. A fault of the mask is reported
/// first, then one of the operations, then one of the kind.
pub open spec fn spec_field_at(words: Seq<Seq<char>>, at: int, rev: nat) -> Result<
    (FieldView, nat),
    ErrView,
> {
    match spec_gen_mask(words, at + 1, rev) {
        None => Err(
            ErrView::NoMask(
                if 0 <= at + 1 < words.len() {
                    words[at + 1]
                } else {
                    Seq::empty()
                },
            ),
        ),
        Some((mask, taken)) => if mask == 0 {
            Err(ErrView::ZeroMask(spec_mask_text(words, at + 1, taken)))
        } else {
            match spec_ops(words, at + 1 + taken) {
                Err(e) => Err(e),
                Ok(ops) => match spec_fmt_kind(words[at]) {
                    None => Err(ErrView::UnknownFormat(words[at])),
                    Some(typ) => Ok(
                        (FieldView { typ, mask, ops }, (taken + 2 * ops.len()) as nat),
                    ),
                },
            }
        },
    }
}

/// The fields that stand from word `start` on, up to the end of the line.
#[verifier::opaque]
pub open spec fn spec_fields(words: Seq<Seq<char>>, start: int, rev: nat) -> Result<
    Seq<FieldView>,
    ErrView,
>
    decreases
        (if start < words.len() {
            words.len() - start
        } else {
            0
        }),
{
    if start < 0 || start >= words.len() {
        Ok(Seq::empty())
    } else {
        match spec_field_at(words, start, rev) {
            Err(e) => Err(e),
            Ok((field, more)) => match spec_fields(words, start + 1 + more, rev) {
                Err(e) => Err(e),
                Ok(rest) => Ok(seq![field] + rest),
            },
        }
    }
}

/// Reads the operations that stand from word `from` on.
fn read_ops(words: &Vec<&str>, from: usize) -> (r: Result<Vec<BitOp>, ErrType>)
    ensures
        match r {
            Ok(ops) => {
                &&& spec_ops(spec_texts(words@), from as int) == Ok::<Seq<BitOp>, ErrView>(ops@)
                &&& from + 2 * ops@.len() <= words@.len() || ops@.len() == 0
            },
            Err(e) => spec_ops(spec_texts(words@), from as int) == Err::<Seq<BitOp>, ErrView>(e@),
        },
{
    let ghost texts = spec_texts(words@);
    let mut ops: Vec<BitOp> = Vec::new();
    let mut i: usize = from;
    let len = words.len();
    proof {
        assert(ops@ + Seq::<BitOp>::empty() =~= ops@);
    }
    while i < len
        invariant
            len == words.len(),
            texts == spec_texts(words@),
            from <= i,
            i == from + 2 * ops@.len(),
            i <= len || ops@.len() == 0,
            spec_ops(texts, from as int) == (match spec_ops(texts, i as int) {
                Ok(rest) => Ok::<Seq<BitOp>, ErrView>(ops@ + rest),
                Err(e) => Err(e),
            }),
        decreases len - i,
    {
        let typ = match op_kind(words[i]) {
            Some(typ) => typ,
            None => {
                proof {
                    assert(ops@ + Seq::<BitOp>::empty() =~= ops@);
                }
                return Ok(ops);
            },
        };
        if i + 1 >= len {
            proof {
                assert(texts.last() == words@[len - 1]@);
            }
            return Err(ErrType::ExpectedNumber(String::from_str(words[len - 1])));
        }
        let val = match parse_number(words[i + 1]) {
            Ok(val) => val,
            Err(why) => {
                return Err(ErrType::ParseNumber(String::from_str(words[i + 1]), why));
            },
        };
        let ghost before = ops@;
        ops.push(BitOp { typ, val });
        proof {
            match spec_ops(texts, i + 2) {
                Ok(rest) => {
                    assert(before + (seq![BitOp { typ, val }] + rest) =~= ops@ + rest);
                },
                Err(_) => {},
            }
        }
        i = i + 2;
    }
    proof {
        assert(ops@ + Seq::<BitOp>::empty() =~= ops@);
    }
    Ok(ops)
}

/// Reads the field that starts at word `at`, and tells where the next one
/// starts.
fn read_field(words: &Vec<&str>, at: usize, reverse: usize) -> (r: Result<(Fmt, usize), ErrType>)
    requires
        at < words.len(),
    ensures
        match r {
            Ok(found) => {
                &&& spec_field_at(spec_texts(words@), at as int, reverse as nat) == Ok::<
                    (FieldView, nat),
                    ErrView,
                >((found.0@, (found.1 - at - 1) as nat))
                &&& at < found.1 <= words.len()
            },
            Err(e) => spec_field_at(spec_texts(words@), at as int, reverse as nat) == Err::<
                (FieldView, nat),
                ErrView,
            >(e@),
        },
{
    let len = words.len();
    let found = match gen_mask(words, at + 1, reverse) {
        Some(found) => found,
        None => {
            if at + 1 < len {
                return Err(ErrType::NoMask(String::from_str(words[at + 1])));
            } else {
                return Err(ErrType::NoMask(String::new()));
            }
        },
    };
    if found.0 == 0 {
        return Err(ErrType::ZeroMask(mask_text(words, at + 1, found.1)));
    }
    let ops = match read_ops(words, at + 1 + found.1) {
        Ok(ops) => ops,
        Err(e) => {
            return Err(e);
        },
    };
    let typ = match fmt_kind(words[at]) {
        Some(typ) => typ,
        None => {
            return Err(ErrType::UnknownFormat(String::from_str(words[at])));
        },
    };
    let next: usize = at + 1 + found.1 + 2 * ops.len();
    Ok((Fmt { typ, mask: found.0, ops }, next))
}

/// The fields in `done` followed by the fields in `rest`, or the error of
/// `rest`.
pub open spec fn spec_after(done: Seq<FieldView>, rest: Result<Seq<FieldView>, ErrView>) -> Result<
    Seq<FieldView>,
    ErrView,
> {
    match rest {
        Ok(more) => Ok(done + more),
        Err(e) => Err(e),
    }
}

proof fn lemma_fields_step(
    words: Seq<Seq<char>>,
    at: int,
    rev: nat,
    done: Seq<FieldView>,
    field: FieldView,
    more: nat,
)
    requires
        0 <= at < words.len(),
        spec_field_at(words, at, rev) == Ok::<(FieldView, nat), ErrView>((field, more)),
    ensures
        spec_after(done, spec_fields(words, at, rev)) == spec_after(
            done.push(field),
            spec_fields(words, at + 1 + more, rev),
        ),
{
    reveal(spec_fields);
    match spec_fields(words, at + 1 + more, rev) {
        Ok(rest) => {
            assert(done + (seq![field] + rest) =~= done.push(field) + rest);
        },
        Err(_) => {},
    }
}

proof fn lemma_fields_fail(words: Seq<Seq<char>>, at: int, rev: nat, done: Seq<FieldView>)
    requires
        0 <= at < words.len(),
        spec_field_at(words, at, rev) is Err,
    ensures
        spec_after(done, spec_fields(words, at, rev)) == Err::<Seq<FieldView>, ErrView>(
            spec_field_at(words, at, rev)->Err_0,
        ),
{
    reveal(spec_fields);
}

proof fn lemma_fields_end(words: Seq<Seq<char>>, at: int, rev: nat, done: Seq<FieldView>)
    requires
        at >= words.len(),
    ensures
        spec_after(done, spec_fields(words, at, rev)) == Ok::<Seq<FieldView>, ErrView>(done),
{
    reveal(spec_fields);
    assert(done + Seq::<FieldView>::empty() =~= done);
}

/// Reads the fields of an instruction from word `start` of the line on.
pub fn create_fmt(words: &Vec<&str>, start: usize, reverse: usize) -> (r: Result<
    Instrfmt,
    ErrType,
>)
    ensures
        match r {
            Ok(fmt) => spec_fields(spec_texts(words@), start as int, reverse as nat) == Ok::<
                Seq<FieldView>,
                ErrView,
            >(fmt@),
            Err(e) => spec_fields(spec_texts(words@), start as int, reverse as nat) == Err::<
                Seq<FieldView>,
                ErrView,
            >(e@),
        },
{
    let ghost texts = spec_texts(words@);
    let ghost rev = reverse as nat;
    let mut fmt: Vec<Fmt> = Vec::new();
    let mut at: usize = start;
    let len = words.len();
    let ghost mut done: Seq<FieldView> = Seq::empty();
    proof {
        match spec_fields(texts, start as int, rev) {
            Ok(rest) => {
                assert(done + rest =~= rest);
            },
            Err(_) => {},
        }
    }
    while at < len
        invariant
            len == words.len(),
            texts == spec_texts(words@),
            texts.len() == len,
            rev == reverse as nat,
            start <= at,
            done.len() == fmt@.len(),
            forall|k: int| 0 <= k < done.len() ==> done[k] == fmt@[k]@,
            spec_fields(texts, start as int, rev) == spec_after(
                done,
                spec_fields(texts, at as int, rev),
            ),
        decreases len - at,
    {
        let found = match read_field(words, at, reverse) {
            Ok(found) => found,
            Err(e) => {
                proof {
                    lemma_fields_fail(texts, at as int, rev, done);
                }
                return Err(e);
            },
        };
        proof {
            lemma_fields_step(texts, at as int, rev, done, found.0@, (found.1 - at - 1) as nat);
            done = done.push(found.0@);
        }
        fmt.push(found.0);
        at = found.1;
    }
    let r = Instrfmt { fmt };
    proof {
        lemma_fields_end(texts, at as int, rev, done);
        assert(r@ =~= done);
    }
    Ok(r)
}

/// What a line of the body declares under a table with `mask`: the key in
/// that table, and an instruction with its fields or a nested table that is
/// still empty.
///
/// The line has at least three words and starts with the opcode, a number
/// that is spread over `mask` to give the key. After `=` follow the name of
/// an instruction and its fields; otherwise the mask of a nested table
/// follows, which must select at least one bit, and after it `{` and
/// nothing more.
pub open spec fn spec_node(words: Seq<Seq<char>>, mask: Bitmask, rev: nat) -> Result<
    (Wordt, NodeView),
    ErrView,
> {
    if words.len() < 3 {
        Err(ErrView::Other)
    } else {
        match spec_parse_number(words[0]) {
            Err(why) => Err(ErrView::ParseNumber(words[0], why)),
            Ok(opcode) => {
                let key = spec_align(opcode as nat, mask as nat) as Wordt;
                if words[1] == "="@ {
                    match spec_fields(words, 3, rev) {
                        Ok(fields) => Ok(
                            (key, NodeView::Leaf(LeafView { name: words[2], fields })),
                        ),
                        Err(e) => Err(e),
                    }
                } else {
                    match spec_gen_mask(words, 1, rev) {
                        Some((inner, taken)) => if inner == 0 {
                            Err(ErrView::ZeroMask(spec_mask_text(words, 1, taken)))
                        } else if !(words.len() == 2 + taken && words[1 + taken] == "{"@) {
                            Err(ErrView::Other)
                        } else {
                            Ok(
                                (
                                    key,
                                    NodeView::Branch(
                                        TrieView { mask: inner, children: Map::empty() },
                                    ),
                                ),
                            )
                        },
                        None => Err(ErrView::NoMask(spec_join(words))),
                    }
                }
            },
        }
    }
}

/// Reads a line of the body under a table with `mask`: the key in that
/// table, and the instruction or the empty nested table to put there.
pub fn create_node(words: &Vec<&str>, mask: Bitmask, reverse: usize) -> (r: Result<
    (Wordt, Node),
    ErrType,
>)
    ensures
        match r {
            Ok(found) => spec_node(spec_texts(words@), mask, reverse as nat) == Ok::<
                (Wordt, NodeView),
                ErrView,
            >((found.0, found.1.view())),
            Err(e) => spec_node(spec_texts(words@), mask, reverse as nat) == Err::<
                (Wordt, NodeView),
                ErrView,
            >(e@),
        },
{
    if words.len() < 3 {
        return Err(ErrType::Other);
    }
    let key = match parse_number(words[0]) {
        Ok(opcode) => align(opcode, mask),
        Err(why) => {
            return Err(ErrType::ParseNumber(String::from_str(words[0]), why));
        },
    };
    if str_eq(words[1], "=") {
        match create_fmt(words, 3, reverse) {
            Ok(fmt) => Ok((key, Node::Instr((String::from_str(words[2]), fmt)))),
            Err(e) => Err(e),
        }
    } else {
        match gen_mask(words, 1, reverse) {
            Some(found) => {
                if found.0 == 0 {
                    return Err(ErrType::ZeroMask(mask_text(words, 1, found.1)));
                }
                if !(words.len() == 2 + found.1 && str_eq(words[1 + found.1], "{")) {
                    return Err(ErrType::Other);
                }
                let inner = Maskmap { mask: found.0, map: HashMap::new() };
                proof {
                    assert(inner.view().children =~= Map::<Wordt, NodeView>::empty());
                }
                Ok((key, Node::Branch(inner)))
            },
            None => Err(ErrType::NoMask(wordsvec_to_string(words))),
        }
    }
}

/// What the parser knows while the description is not yet complete.
pub struct OpenState {
    /// 0 before the header, 1 before the mask of the outermost table, 2 in
    /// the body.
    pub stage: nat,
    pub wordsize: nat,
    pub endian_little: bool,
    /// The number of bytes within which masks are reversed, or 0.
    pub reverse: nat,
    /// The tables that are open, the outermost first, each with the key
    /// under which it will be put into the one before it.
    pub stack: Seq<(Wordt, TrieView)>,
}

/// The parser after a line: still open, or done with the instruction set.
pub enum Progress {
    Open(OpenState),
    Done(InstrsetView),
}

/// The state before the first line: little-endian words of no size yet, and
/// the outermost table open with no mask yet.
pub open spec fn spec_initial() -> OpenState {
    OpenState {
        stage: 0,
        wordsize: 0,
        endian_little: true,
        reverse: 0,
        stack: seq![(0u64, TrieView { mask: 0, children: Map::empty() })],
    }
}

/// The line is skipped: it has no word, or its first word starts with `#`.
pub open spec fn spec_is_skipped(words: Seq<Seq<char>>) -> bool {
    words.len() == 0 || (words[0].len() > 0 && words[0][0] == '#')
}

/// `table` with `node` put under `key`.
pub open spec fn spec_put(table: TrieView, key: Wordt, node: NodeView) -> TrieView {
    TrieView { mask: table.mask, children: table.children.insert(key, node) }
}

/// The stack with its innermost table replaced by `table`.
pub open spec fn spec_replace_top(stack: Seq<(Wordt, TrieView)>, table: TrieView) -> Seq<
    (Wordt, TrieView),
> {
    stack.drop_last().push((stack.last().0, table))
}

/// What one line that is not skipped does to the parser.
///
/// The first such line is the header: it sets the word size and the byte
/// order, where the native order is little-endian, and makes masks
/// reversed within the word size if it says so or if `force_reverse` is
/// set. The second gives the outermost table its mask. After that a lone
/// `}` closes the innermost open table: the outermost one completes the
/// instruction set, any other is put into the table before it. Every other
/// line declares an instruction, which is put into the innermost open
/// table, or a nested table, which becomes the innermost open one.
#[verifier::opaque]
pub open spec fn spec_line_step(st: OpenState, words: Seq<Seq<char>>, force_reverse: bool) -> Result<
    Progress,
    ErrView,
> {
    if st.stack.len() == 0 {
        Err(ErrView::ExtraClosingBrace)
    } else if st.stage == 0 {
        match spec_first_line(words) {
            Err(e) => Err(e),
            Ok((wordsize, native, reversed)) => Ok(
                Progress::Open(
                    OpenState {
                        stage: 1,
                        wordsize: wordsize as nat,
                        endian_little: native,
                        reverse: if reversed || force_reverse {
                            wordsize as nat
                        } else {
                            0
                        },
                        stack: st.stack,
                    },
                ),
            ),
        }
    } else if st.stage == 1 {
        match spec_second_line(words, st.reverse) {
            Err(e) => Err(e),
            Ok(mask) => Ok(
                Progress::Open(
                    OpenState {
                        stage: 2,
                        wordsize: st.wordsize,
                        endian_little: st.endian_little,
                        reverse: st.reverse,
                        stack: spec_replace_top(
                            st.stack,
                            TrieView { mask, children: st.stack.last().1.children },
                        ),
                    },
                ),
            ),
        }
    } else if words.len() == 1 && words[0] == "}"@ {
        let closed = st.stack.last();
        let outer = st.stack.drop_last();
        if outer.len() == 0 {
            Ok(
                Progress::Done(
                    InstrsetView {
                        wordsize: st.wordsize,
                        endian_little: st.endian_little,
                        reverse_width: st.reverse,
                        set: closed.1,
                    },
                ),
            )
        } else {
            Ok(
                Progress::Open(
                    OpenState {
                        stage: st.stage,
                        wordsize: st.wordsize,
                        endian_little: st.endian_little,
                        reverse: st.reverse,
                        stack: spec_replace_top(
                            outer,
                            spec_put(outer.last().1, closed.0, NodeView::Branch(closed.1)),
                        ),
                    },
                ),
            )
        }
    } else {
        match spec_node(words, st.stack.last().1.mask, st.reverse) {
            Err(e) => Err(e),
            Ok((key, node)) => Ok(
                Progress::Open(
                    OpenState {
                        stage: st.stage,
                        wordsize: st.wordsize,
                        endian_little: st.endian_little,
                        reverse: st.reverse,
                        stack: match node {
                            NodeView::Leaf(leaf) => spec_replace_top(
                                st.stack,
                                spec_put(st.stack.last().1, key, node),
                            ),
                            NodeView::Branch(table) => st.stack.push((key, table)),
                        },
                    },
                ),
            ),
        }
    }
}

/// What the lines from number `from` on make of the state `st`: the
/// instruction set that the first completing line gives, or the first error
/// with the number of its line, counted from 1. A description that ends
/// before it is complete is an error at its last line.
pub open spec fn spec_parse_lines(
    lines: Seq<Seq<char>>,
    st: OpenState,
    from: int,
    force_reverse: bool,
) -> Result<InstrsetView, (ErrView, nat)>
    decreases lines.len() - from,
{
    if from < 0 || from >= lines.len() {
        Err((ErrView::Other, lines.len()))
    } else {
        let words = spec_split(lines[from]);
        if spec_is_skipped(words) {
            spec_parse_lines(lines, st, from + 1, force_reverse)
        } else {
            match spec_line_step(st, words, force_reverse) {
                Err(e) => Err((e, (from + 1) as nat)),
                Ok(Progress::Done(is)) => Ok(is),
                Ok(Progress::Open(next)) => spec_parse_lines(lines, next, from + 1, force_reverse),
            }
        }
    }
}

/// The instruction set that the description `text` declares.
pub open spec fn spec_parse_file(text: Seq<char>, force_reverse: bool) -> Result<
    InstrsetView,
    (ErrView, nat),
> {
    spec_parse_lines(spec_lines(text), spec_initial(), 0, force_reverse)
}

/// The fields that a line declares all select at least one bit.
proof fn lemma_fields_select(words: Seq<Seq<char>>, start: int, rev: nat)
    ensures
        match spec_fields(words, start, rev) {
            Ok(fields) => forall|i: int| 0 <= i < fields.len() ==> (#[trigger] fields[i]).mask != 0,
            Err(_) => true,
        },
    decreases
        (if start < words.len() {
            words.len() - start
        } else {
            0
        }),
{
    reveal(spec_fields);
    if !(start < 0 || start >= words.len()) {
        match spec_field_at(words, start, rev) {
            Err(_) => {},
            Ok((field, more)) => {
                lemma_fields_select(words, start + 1 + more, rev);
            },
        }
    }
}

/// The table is well formed but for its mask, which may still be missing
/// unless `masked` is set.
pub open spec fn wf_open_table(table: TrieView, masked: bool) -> bool {
    &&& masked ==> table.mask != 0
    &&& table.children.dom().finite()
    &&& forall|k: Wordt| #[trigger]
        table.children.contains_key(k) ==> {
            &&& k & !table.mask == 0
            &&& match table.children[k] {
                NodeView::Leaf(leaf) => wf_leaf(leaf),
                NodeView::Branch(sub) => wf_trie(sub),
            }
        }
}

/// What holds of the parser between any two lines: the outermost table is
/// open; before the body it is the only one and is empty; the word size is
/// known after the header; every open table is well formed, and the key of
/// each nested one lies under the mask of the table around it.
pub open spec fn spec_parser_inv(st: OpenState) -> bool {
    &&& st.stack.len() >= 1
    &&& st.stage <= 2
    &&& st.stage >= 1 ==> st.wordsize > 0
    &&& st.stage < 2 ==> st.stack.len() == 1 && st.stack[0].1.children == Map::<
        Wordt,
        NodeView,
    >::empty()
    &&& forall|i: int|
        0 <= i < st.stack.len() ==> wf_open_table((#[trigger] st.stack[i]).1, st.stage == 2)
    &&& forall|i: int|
        1 <= i < st.stack.len() ==> (#[trigger] st.stack[i]).0 & !st.stack[i - 1].1.mask == 0
}

proof fn lemma_put_keeps_table(table: TrieView, key: Wordt, node: NodeView)
    requires
        wf_open_table(table, true),
        key & !table.mask == 0,
        match node {
            NodeView::Leaf(leaf) => wf_leaf(leaf),
            NodeView::Branch(sub) => wf_trie(sub),
        },
    ensures
        wf_open_table(spec_put(table, key, node), true),
{
    let after = spec_put(table, key, node);
    assert forall|k: Wordt| #[trigger] after.children.contains_key(k) implies {
        &&& k & !after.mask == 0
        &&& match after.children[k] {
            NodeView::Leaf(leaf) => wf_leaf(leaf),
            NodeView::Branch(sub) => wf_trie(sub),
        }
    } by {
        if k != key {
            assert(table.children.contains_key(k));
        }
    }
}

/// A line keeps what holds of the parser, and a line that completes the
/// description gives a well-formed instruction set.
proof fn lemma_step_keeps_inv(st: OpenState, words: Seq<Seq<char>>, force_reverse: bool)
    requires
        spec_parser_inv(st),
    ensures
        match spec_line_step(st, words, force_reverse) {
            Ok(Progress::Open(next)) => spec_parser_inv(next),
            Ok(Progress::Done(is)) => wf_instrset(is),
            Err(_) => true,
        },
{
    reveal(spec_line_step);
    let top = st.stack.last();
    assert(top == st.stack[st.stack.len() - 1]);
    match spec_line_step(st, words, force_reverse) {
        Ok(Progress::Open(next)) => {
            if st.stage == 0 {
                assert(next.stack == st.stack);
            } else if st.stage == 1 {
                let mask = spec_second_line(words, st.reverse)->Ok_0;
                let table = TrieView { mask, children: top.1.children };
                assert(next.stack =~= seq![(top.0, table)]);
                assert(next.stack[0].1 == table);
            } else if words.len() == 1 && words[0] == "}"@ {
                let outer = st.stack.drop_last();
                let parent = outer.last();
                assert(parent == st.stack[st.stack.len() - 2]);
                assert(wf_open_table(top.1, true));
                assert(wf_open_table(parent.1, true));
                lemma_put_keeps_table(parent.1, top.0, NodeView::Branch(top.1));
                let table = spec_put(parent.1, top.0, NodeView::Branch(top.1));
                assert(next.stack == spec_replace_top(outer, table));
                assert forall|i: int| 0 <= i < next.stack.len() implies wf_open_table(
                    (#[trigger] next.stack[i]).1,
                    true,
                ) by {
                    if i < next.stack.len() - 1 {
                        assert(next.stack[i] == st.stack[i]);
                    }
                }
                assert forall|i: int| 1 <= i < next.stack.len() implies (#[trigger] next.stack[i]).0
                    & !next.stack[i - 1].1.mask == 0 by {
                    assert(next.stack[i].0 == st.stack[i].0);
                    assert(next.stack[i - 1] == st.stack[i - 1]);
                }
            } else {
                let found = spec_node(words, top.1.mask, st.reverse)->Ok_0;
                assert(wf_open_table(top.1, true));
                match spec_parse_number(words[0]) {
                    Ok(opcode) => {
                        lemma_align_under_mask(opcode as nat, top.1.mask);
                    },
                    Err(_) => {},
                }
                assert(found.0 & !top.1.mask == 0);
                match found.1 {
                    NodeView::Leaf(leaf) => {
                        lemma_fields_select(words, 3, st.reverse);
                        lemma_put_keeps_table(top.1, found.0, found.1);
                        let table = spec_put(top.1, found.0, found.1);
                        assert(next.stack == spec_replace_top(st.stack, table));
                        assert forall|i: int| 0 <= i < next.stack.len() implies wf_open_table(
                            (#[trigger] next.stack[i]).1,
                            true,
                        ) by {
                            if i < next.stack.len() - 1 {
                                assert(next.stack[i] == st.stack[i]);
                            }
                        }
                        assert forall|i: int| 1 <= i < next.stack.len() implies (
                        #[trigger] next.stack[i]).0 & !next.stack[i - 1].1.mask == 0 by {
                            assert(next.stack[i].0 == st.stack[i].0);
                            assert(next.stack[i - 1].1.mask == st.stack[i - 1].1.mask);
                        }
                    },
                    NodeView::Branch(table) => {
                        assert(next.stack == st.stack.push((found.0, table)));
                        assert(table.children =~= Map::<Wordt, NodeView>::empty());
                        assert forall|i: int| 0 <= i < next.stack.len() implies wf_open_table(
                            (#[trigger] next.stack[i]).1,
                            true,
                        ) by {
                            if i < st.stack.len() {
                                assert(next.stack[i] == st.stack[i]);
                            }
                        }
                        assert forall|i: int| 1 <= i < next.stack.len() implies (
                        #[trigger] next.stack[i]).0 & !next.stack[i - 1].1.mask == 0 by {
                            if i < st.stack.len() {
                                assert(next.stack[i] == st.stack[i]);
                                assert(next.stack[i - 1] == st.stack[i - 1]);
                            } else {
                                assert(next.stack[i - 1] == top);
                            }
                        }
                    },
                }
            }
        },
        Ok(Progress::Done(is)) => {
            assert(st.stage == 2);
            assert(st.stack.len() == 1);
            assert(wf_open_table(top.1, true));
        },
        Err(_) => {},
    }
}

proof fn lemma_lines_give_well_formed(
    lines: Seq<Seq<char>>,
    st: OpenState,
    from: int,
    force_reverse: bool,
)
    requires
        spec_parser_inv(st),
    ensures
        match spec_parse_lines(lines, st, from, force_reverse) {
            Ok(is) => wf_instrset(is),
            Err(_) => true,
        },
    decreases lines.len() - from,
{
    if !(from < 0 || from >= lines.len()) {
        let words = spec_split(lines[from]);
        if spec_is_skipped(words) {
            lemma_lines_give_well_formed(lines, st, from + 1, force_reverse);
        } else {
            lemma_step_keeps_inv(st, words, force_reverse);
            match spec_line_step(st, words, force_reverse) {
                Ok(Progress::Open(next)) => {
                    lemma_lines_give_well_formed(lines, next, from + 1, force_reverse);
                },
                _ => {},
            }
        }
    }
}

/// Every instruction set that a description declares is well formed: its
/// words are not empty, every mask of a table or a field selects at least
/// one bit, and every key lies under the mask of its table.
pub proof fn lemma_parsed_is_well_formed(text: Seq<char>, force_reverse: bool)
    ensures
        match spec_parse_file(text, force_reverse) {
            Ok(is) => wf_instrset(is),
            Err(_) => true,
        },
{
    let st = spec_initial();
    assert(st.stack[0].1.children =~= Map::<Wordt, NodeView>::empty());
    lemma_lines_give_well_formed(spec_lines(text), st, 0, force_reverse);
}

/// A line that declares an instruction under the opcode `opcode` in a
/// table puts it where every word finds it whose bits under the table's
/// mask, gathered, are that opcode.
pub proof fn lemma_declared_instruction_is_found(
    words: Seq<Seq<char>>,
    table: TrieView,
    rev: nat,
    opcode: Wordt,
    w: Wordt,
)
    requires
        table.children.dom().finite(),
        spec_parse_number(words[0]) == Ok::<Wordt, NumErr>(opcode),
        spec_node(words, table.mask, rev) is Ok,
        spec_node(words, table.mask, rev)->Ok_0.1 is Leaf,
        crate::bits::spec_minimize(w as nat, table.mask as nat) == opcode,
    ensures
        crate::instrset::spec_get_fmt(
            w,
            spec_put(
                table,
                spec_node(words, table.mask, rev)->Ok_0.0,
                spec_node(words, table.mask, rev)->Ok_0.1,
            ),
        ) == Some(spec_node(words, table.mask, rev)->Ok_0.1->Leaf_0),
{
    let found = spec_node(words, table.mask, rev)->Ok_0;
    let after = spec_put(table, found.0, found.1);
    assert(found.0 == spec_align(opcode as nat, table.mask as nat) as Wordt);
    assert(after.children.contains_key(found.0));
    crate::instrset::lemma_declared_leaf_is_found(after, opcode, found.1->Leaf_0, w);
}

/// The parser before line number `upto` of `lines`, counted from 0, if the
/// lines before it leave the description open and without error.
pub open spec fn spec_state_at(lines: Seq<Seq<char>>, force_reverse: bool, upto: int) -> Option<
    OpenState,
>
    decreases upto,
{
    if upto <= 0 {
        Some(spec_initial())
    } else if upto > lines.len() {
        None
    } else {
        match spec_state_at(lines, force_reverse, upto - 1) {
            None => None,
            Some(st) => {
                let words = spec_split(lines[upto - 1]);
                if spec_is_skipped(words) {
                    Some(st)
                } else {
                    match spec_line_step(st, words, force_reverse) {
                        Ok(Progress::Open(next)) => Some(next),
                        _ => None,
                    }
                }
            },
        }
    }
}

/// The key under which a line puts a node into the outermost table, if it
/// puts one there: an instruction declared while only the outermost table
/// is open, or a nested table closed directly under it.
pub open spec fn spec_root_key(st: OpenState, words: Seq<Seq<char>>) -> Option<Wordt> {
    if st.stage < 2 || st.stack.len() == 0 {
        None
    } else if words.len() == 1 && words[0] == "}"@ {
        if st.stack.len() == 2 {
            Some(st.stack[1].0)
        } else {
            None
        }
    } else if st.stack.len() == 1 {
        match spec_node(words, st.stack[0].1.mask, st.reverse) {
            Ok((key, NodeView::Leaf(_))) => Some(key),
            _ => None,
        }
    } else {
        None
    }
}

/// Line number `at` declares the instruction `leaf` under the opcode
/// `opcode` directly in the outermost table, whose mask is `mask`.
pub open spec fn spec_declares_at_root(
    lines: Seq<Seq<char>>,
    force_reverse: bool,
    at: int,
    mask: Bitmask,
    opcode: Wordt,
    leaf: LeafView,
) -> bool {
    let words = spec_split(lines[at]);
    &&& 0 <= at < lines.len()
    &&& !spec_is_skipped(words)
    &&& !(words.len() == 1 && words[0] == "}"@)
    &&& spec_parse_number(words[0]) == Ok::<Wordt, NumErr>(opcode)
    &&& match spec_state_at(lines, force_reverse, at) {
        Some(st) => {
            &&& st.stage == 2
            &&& st.stack.len() == 1
            &&& st.stack[0].1.mask == mask
            &&& match spec_node(words, mask, st.reverse) {
                Ok((_, NodeView::Leaf(found))) => found == leaf,
                _ => false,
            }
        },
        None => false,
    }
}

/// No line after number `at` puts a node into the outermost table under
/// `key`.
pub open spec fn spec_key_stays(
    lines: Seq<Seq<char>>,
    force_reverse: bool,
    at: int,
    key: Wordt,
) -> bool {
    forall|later: int|
        at < later < lines.len() ==> match #[trigger] spec_state_at(lines, force_reverse, later) {
            Some(st) => !spec_is_skipped(spec_split(lines[later])) ==> spec_root_key(
                st,
                spec_split(lines[later]),
            ) != Some(key),
            None => true,
        }
}

/// The outermost table has the mask `mask` and holds `leaf` under `key`.
pub open spec fn spec_root_holds(table: TrieView, mask: Bitmask, key: Wordt, leaf: LeafView) -> bool {
    &&& table.mask == mask
    &&& table.children.dom().finite()
    &&& table.children.contains_key(key)
    &&& table.children[key] == NodeView::Leaf(leaf)
}

proof fn lemma_state_at_inv(lines: Seq<Seq<char>>, force_reverse: bool, upto: int)
    ensures
        match spec_state_at(lines, force_reverse, upto) {
            Some(st) => spec_parser_inv(st),
            None => true,
        },
    decreases upto,
{
    if upto <= 0 {
        let st = spec_initial();
        assert(st.stack[0].1.children =~= Map::<Wordt, NodeView>::empty());
    } else if upto <= lines.len() {
        lemma_state_at_inv(lines, force_reverse, upto - 1);
        match spec_state_at(lines, force_reverse, upto - 1) {
            Some(st) => {
                lemma_step_keeps_inv(st, spec_split(lines[upto - 1]), force_reverse);
            },
            None => {},
        }
    }
}

proof fn lemma_state_at_resumes(lines: Seq<Seq<char>>, force_reverse: bool, upto: int)
    requires
        0 <= upto,
        spec_state_at(lines, force_reverse, upto) is Some,
    ensures
        spec_parse_lines(lines, spec_initial(), 0, force_reverse) == spec_parse_lines(
            lines,
            spec_state_at(lines, force_reverse, upto)->Some_0,
            upto,
            force_reverse,
        ),
    decreases upto,
{
    if upto > 0 {
        assert(upto <= lines.len());
        assert(spec_state_at(lines, force_reverse, upto - 1) is Some);
        lemma_state_at_resumes(lines, force_reverse, upto - 1);
        let prev = spec_state_at(lines, force_reverse, upto - 1)->Some_0;
        let words = spec_split(lines[upto - 1]);
        let st = spec_state_at(lines, force_reverse, upto)->Some_0;
        if spec_is_skipped(words) {
            assert(st == prev);
        } else {
            assert(spec_line_step(prev, words, force_reverse) == Ok::<Progress, ErrView>(
                Progress::Open(st),
            ));
        }
        assert(spec_parse_lines(lines, prev, upto - 1, force_reverse) == spec_parse_lines(
            lines,
            st,
            upto,
            force_reverse,
        ));
    }
}

proof fn lemma_step_keeps_root_entry(
    st: OpenState,
    words: Seq<Seq<char>>,
    force_reverse: bool,
    mask: Bitmask,
    key: Wordt,
    leaf: LeafView,
)
    requires
        st.stage == 2,
        st.stack.len() >= 1,
        spec_root_holds(st.stack[0].1, mask, key, leaf),
        spec_root_key(st, words) != Some(key),
    ensures
        match spec_line_step(st, words, force_reverse) {
            Ok(Progress::Open(next)) => {
                &&& next.stage == 2
                &&& next.stack.len() >= 1
                &&& spec_root_holds(next.stack[0].1, mask, key, leaf)
            },
            Ok(Progress::Done(is)) => spec_root_holds(is.set, mask, key, leaf),
            Err(_) => true,
        },
{
    reveal(spec_line_step);
    let top = st.stack.last();
    assert(top == st.stack[st.stack.len() - 1]);
    match spec_line_step(st, words, force_reverse) {
        Ok(Progress::Open(next)) => {
            if words.len() == 1 && words[0] == "}"@ {
                let outer = st.stack.drop_last();
                let parent = outer.last();
                assert(parent == st.stack[st.stack.len() - 2]);
                let table = spec_put(parent.1, top.0, NodeView::Branch(top.1));
                assert(next.stack == spec_replace_top(outer, table));
                if st.stack.len() == 2 {
                    assert(next.stack[0].1 == table);
                    assert(top.0 != key);
                } else {
                    assert(next.stack[0] == st.stack[0]);
                }
            } else {
                let found = spec_node(words, top.1.mask, st.reverse)->Ok_0;
                match found.1 {
                    NodeView::Leaf(_) => {
                        let table = spec_put(top.1, found.0, found.1);
                        assert(next.stack == spec_replace_top(st.stack, table));
                        if st.stack.len() == 1 {
                            assert(next.stack[0].1 == table);
                            assert(found.0 != key);
                        } else {
                            assert(next.stack[0] == st.stack[0]);
                        }
                    },
                    NodeView::Branch(table) => {
                        assert(next.stack == st.stack.push((found.0, table)));
                        assert(next.stack[0] == st.stack[0]);
                    },
                }
            }
        },
        Ok(Progress::Done(is)) => {
            assert(st.stack.drop_last().len() == 0);
            assert(st.stack.len() == 1);
        },
        Err(_) => {},
    }
}

proof fn lemma_root_entry_stays(
    lines: Seq<Seq<char>>,
    force_reverse: bool,
    at: int,
    from: int,
    mask: Bitmask,
    key: Wordt,
    leaf: LeafView,
)
    requires
        at < from,
        spec_key_stays(lines, force_reverse, at, key),
        spec_state_at(lines, force_reverse, from) is Some,
        spec_state_at(lines, force_reverse, from)->Some_0.stage == 2,
        spec_state_at(lines, force_reverse, from)->Some_0.stack.len() >= 1,
        spec_root_holds(
            spec_state_at(lines, force_reverse, from)->Some_0.stack[0].1,
            mask,
            key,
            leaf,
        ),
    ensures
        match spec_parse_lines(
            lines,
            spec_state_at(lines, force_reverse, from)->Some_0,
            from,
            force_reverse,
        ) {
            Ok(is) => spec_root_holds(is.set, mask, key, leaf),
            Err(_) => true,
        },
    decreases lines.len() - from,
{
    let st = spec_state_at(lines, force_reverse, from)->Some_0;
    if !(from < 0 || from >= lines.len()) {
        let words = spec_split(lines[from]);
        if spec_is_skipped(words) {
            assert(spec_state_at(lines, force_reverse, from + 1) == Some(st));
            lemma_root_entry_stays(lines, force_reverse, at, from + 1, mask, key, leaf);
        } else {
            assert(spec_root_key(st, words) != Some(key));
            lemma_step_keeps_root_entry(st, words, force_reverse, mask, key, leaf);
            match spec_line_step(st, words, force_reverse) {
                Ok(Progress::Open(next)) => {
                    assert(spec_state_at(lines, force_reverse, from + 1) == Some(next));
                    lemma_root_entry_stays(lines, force_reverse, at, from + 1, mask, key, leaf);
                },
                _ => {},
            }
        }
    }
}

/// Parsing, then lookup. If a description is accepted, one of its lines
/// declares an instruction under the opcode `opcode` directly in the
/// outermost table, and no later line puts anything else there under the
/// same key, then in the instruction set that the description gives every
/// word whose bits under the outermost mask, gathered, are `opcode` selects
/// that instruction, and the outermost mask is the only one consulted.
pub proof fn lemma_parsed_leaf_is_found(
    text: Seq<char>,
    force_reverse: bool,
    at: int,
    mask: Bitmask,
    opcode: Wordt,
    leaf: LeafView,
    w: Wordt,
)
    requires
        spec_parse_file(text, force_reverse) is Ok,
        spec_declares_at_root(spec_lines(text), force_reverse, at, mask, opcode, leaf),
        spec_key_stays(
            spec_lines(text),
            force_reverse,
            at,
            spec_align(opcode as nat, mask as nat) as Wordt,
        ),
        crate::bits::spec_minimize(w as nat, mask as nat) == opcode,
    ensures
        spec_parse_file(text, force_reverse)->Ok_0.set.mask == mask,
        crate::instrset::spec_get_fmt(w, spec_parse_file(text, force_reverse)->Ok_0.set) == Some(
            leaf,
        ),
        crate::instrset::spec_masks_met(w, spec_parse_file(text, force_reverse)->Ok_0.set)
            == mask,
{
    reveal(spec_line_step);
    let lines = spec_lines(text);
    let key = spec_align(opcode as nat, mask as nat) as Wordt;
    let st = spec_state_at(lines, force_reverse, at)->Some_0;
    let words = spec_split(lines[at]);
    lemma_state_at_inv(lines, force_reverse, at);
    lemma_state_at_resumes(lines, force_reverse, at);
    assert(st.stack.last() == st.stack[0]);
    let found = spec_node(words, mask, st.reverse)->Ok_0;
    assert(found.0 == key);
    let table = spec_put(st.stack[0].1, key, NodeView::Leaf(leaf));
    match spec_line_step(st, words, force_reverse) {
        Ok(Progress::Open(next)) => {
            assert(next.stack == spec_replace_top(st.stack, table));
            assert(next.stack[0].1 == table);
            assert(wf_open_table(st.stack[0].1, true));
            assert(spec_root_holds(table, mask, key, leaf));
            assert(spec_state_at(lines, force_reverse, at + 1) == Some(next));
            lemma_root_entry_stays(lines, force_reverse, at, at + 1, mask, key, leaf);
            let is = spec_parse_file(text, force_reverse)->Ok_0;
            assert(spec_root_holds(is.set, mask, key, leaf));
            crate::instrset::lemma_declared_leaf_is_found(is.set, opcode, leaf, w);
        },
        _ => {},
    }
}

/// The contents of the open tables.
pub open spec fn spec_stack(braces: Seq<(Wordt, Maskmap)>) -> Seq<(Wordt, TrieView)> {
    Seq::new(braces.len(), |i: int| (braces[i].0, braces[i].1.view()))
}

/// The parser between two lines of a description that is not yet complete.
pub struct Parser {
    /// 0 before the header, 1 before the mask of the outermost table, 2 in
    /// the body.
    pub stage: u8,
    pub wordsize: usize,
    pub endian_little: bool,
    /// The number of bytes within which masks are reversed, or 0.
    pub reverse: usize,
    /// The tables that are open, the outermost first, each with the key
    /// under which it will be put into the one before it.
    pub braces: Vec<(Wordt, Maskmap)>,
}

/// The parser after a line: still open, or done with the instruction set.
pub enum Step {
    Open(Parser),
    Done(Instrset),
}

impl View for Parser {
    type V = OpenState;

    open spec fn view(&self) -> OpenState {
        OpenState {
            stage: self.stage as nat,
            wordsize: self.wordsize as nat,
            endian_little: self.endian_little,
            reverse: self.reverse as nat,
            stack: spec_stack(self.braces@),
        }
    }
}

impl View for Step {
    type V = Progress;

    open spec fn view(&self) -> Progress {
        match self {
            Step::Open(parser) => Progress::Open(parser@),
            Step::Done(is) => Progress::Done(is@),
        }
    }
}

/// Whether the result of a step is what the line asks for.
pub open spec fn spec_step_matches(
    r: Result<Step, ErrType>,
    before: OpenState,
    words: Seq<Seq<char>>,
    force_reverse: bool,
) -> bool {
    match r {
        Ok(step) => spec_line_step(before, words, force_reverse) == Ok::<Progress, ErrView>(
            step@,
        ),
        Err(e) => spec_line_step(before, words, force_reverse) == Err::<Progress, ErrView>(e@),
    }
}

/// Puts `node` into `table` under `key`.
fn put_node(table: &mut Maskmap, key: Wordt, node: Node)
    ensures
        final(table).view() == spec_put(old(table).view(), key, node.view()),
{
    let ghost before = table.view();
    let ghost content = node.view();
    table.map.insert(key, node);
    proof {
        assert(table.view().children =~= before.children.insert(key, content));
    }
}

fn is_skipped(words: &Vec<&str>) -> (r: bool)
    ensures
        r == spec_is_skipped(spec_texts(words@)),
{
    if words.len() == 0 {
        return true;
    }
    let first = words[0];
    first.unicode_len() > 0 && first.get_char(0) == '#'
}

impl Parser {
    /// The parser before the first line.
    pub fn new() -> (r: Parser)
        ensures
            r@ == spec_initial(),
    {
        let mut braces: Vec<(Wordt, Maskmap)> = Vec::new();
        braces.push((0, Maskmap { mask: 0, map: HashMap::new() }));
        proof {
            assert(braces@[0].1.view().children =~= Map::<Wordt, NodeView>::empty());
            assert(spec_stack(braces@) =~= spec_initial().stack);
        }
        Parser { stage: 0, wordsize: 0, endian_little: true, reverse: 0, braces }
    }

    fn step_header(self, words: &Vec<&str>, force_reverse: bool) -> (r: Result<Step, ErrType>)
        requires
            self.stage == 0,
            self.braces@.len() > 0,
        ensures
            spec_step_matches(r, self@, spec_texts(words@), force_reverse),
    {
        proof {
            reveal(spec_line_step);
        }
        match parse_first_line(words) {
            Ok(found) => {
                let reverse: usize = if found.2 || force_reverse {
                    found.0
                } else {
                    0
                };
                Ok(
                    Step::Open(
                        Parser {
                            stage: 1,
                            wordsize: found.0,
                            endian_little: found.1,
                            reverse,
                            braces: self.braces,
                        },
                    ),
                )
            },
            Err(why) => Err(why),
        }
    }

    fn step_mask(self, words: &Vec<&str>, force_reverse: bool) -> (r: Result<Step, ErrType>)
        requires
            self.stage == 1,
            self.braces@.len() > 0,
        ensures
            spec_step_matches(r, self@, spec_texts(words@), force_reverse),
    {
        proof {
            reveal(spec_line_step);
        }
        let ghost before = self@;
        let mut braces = self.braces;
        let mut top = match braces.pop() {
            Some(top) => top,
            None => {
                return Err(ErrType::ExtraClosingBrace);
            },
        };
        proof {
            assert(before.stack.last() == (top.0, top.1.view()));
            assert(spec_stack(braces@) =~= before.stack.drop_last());
        }
        match parse_second_line(words, &mut top.1, self.reverse) {
            Ok(()) => {},
            Err(why) => {
                return Err(why);
            },
        }
        proof {
            assert(top.1.view().children =~= before.stack.last().1.children);
        }
        braces.push(top);
        proof {
            assert(spec_stack(braces@) =~= spec_replace_top(
                before.stack,
                TrieView { mask: top.1.mask, children: before.stack.last().1.children },
            ));
        }
        Ok(
            Step::Open(
                Parser {
                    stage: 2,
                    wordsize: self.wordsize,
                    endian_little: self.endian_little,
                    reverse: self.reverse,
                    braces,
                },
            ),
        )
    }

    fn step_close(self, words: &Vec<&str>, force_reverse: bool) -> (r: Result<Step, ErrType>)
        requires
            self.stage >= 2,
            self.braces@.len() > 0,
            words@.len() == 1,
            words@[0]@ == "}"@,
        ensures
            spec_step_matches(r, self@, spec_texts(words@), force_reverse),
    {
        proof {
            reveal(spec_line_step);
        }
        let ghost before = self@;
        let mut braces = self.braces;
        let closed = match braces.pop() {
            Some(closed) => closed,
            None => {
                return Err(ErrType::ExtraClosingBrace);
            },
        };
        proof {
            assert(before.stack.last() == (closed.0, closed.1.view()));
            assert(spec_stack(braces@) =~= before.stack.drop_last());
        }
        let mut outer = match braces.pop() {
            Some(outer) => outer,
            None => {
                return Ok(
                    Step::Done(
                        Instrset {
                            wordsize: self.wordsize,
                            endian_little: self.endian_little,
                            reverse_width: self.reverse,
                            set: closed.1,
                        },
                    ),
                );
            },
        };
        proof {
            assert(before.stack.drop_last().last() == (outer.0, outer.1.view()));
            assert(spec_stack(braces@) =~= before.stack.drop_last().drop_last());
        }
        put_node(&mut outer.1, closed.0, Node::Branch(closed.1));
        braces.push(outer);
        proof {
            assert(spec_stack(braces@) =~= spec_replace_top(
                before.stack.drop_last(),
                spec_put(
                    before.stack.drop_last().last().1,
                    before.stack.last().0,
                    NodeView::Branch(before.stack.last().1),
                ),
            ));
        }
        Ok(
            Step::Open(
                Parser {
                    stage: self.stage,
                    wordsize: self.wordsize,
                    endian_little: self.endian_little,
                    reverse: self.reverse,
                    braces,
                },
            ),
        )
    }

    fn step_entry(self, words: &Vec<&str>, force_reverse: bool) -> (r: Result<Step, ErrType>)
        requires
            self.stage >= 2,
            self.braces@.len() > 0,
            !(words@.len() == 1 && words@[0]@ == "}"@),
        ensures
            spec_step_matches(r, self@, spec_texts(words@), force_reverse),
    {
        proof {
            reveal(spec_line_step);
        }
        let ghost before = self@;
        let mut braces = self.braces;
        let mut top = match braces.pop() {
            Some(top) => top,
            None => {
                return Err(ErrType::ExtraClosingBrace);
            },
        };
        proof {
            assert(before.stack.last() == (top.0, top.1.view()));
            assert(spec_stack(braces@) =~= before.stack.drop_last());
        }
        let found = match create_node(words, top.1.mask, self.reverse) {
            Ok(found) => found,
            Err(why) => {
                return Err(why);
            },
        };
        let ghost content = found.1.view();
        match found.1 {
            Node::Branch(table) => {
                let ghost inner = table.view();
                braces.push(top);
                braces.push((found.0, table));
                proof {
                    assert(content == NodeView::Branch(inner));
                    assert(spec_stack(braces@) =~= before.stack.push((found.0, inner)));
                }
            },
            Node::Instr(leaf) => {
                proof {
                    assert(content == NodeView::Leaf(leaf_view(leaf)));
                }
                put_node(&mut top.1, found.0, Node::Instr(leaf));
                braces.push(top);
                proof {
                    assert(spec_stack(braces@) =~= spec_replace_top(
                        before.stack,
                        spec_put(before.stack.last().1, found.0, content),
                    ));
                }
            },
        }
        Ok(
            Step::Open(
                Parser {
                    stage: self.stage,
                    wordsize: self.wordsize,
                    endian_little: self.endian_little,
                    reverse: self.reverse,
                    braces,
                },
            ),
        )
    }

    /// Takes in the words of one line that is not skipped.
    pub fn step(self, words: &Vec<&str>, force_reverse: bool) -> (r: Result<Step, ErrType>)
        ensures
            spec_step_matches(r, self@, spec_texts(words@), force_reverse),
    {
        proof {
            reveal(spec_line_step);
        }
        if self.braces.len() == 0 {
            Err(ErrType::ExtraClosingBrace)
        } else if self.stage == 0 {
            self.step_header(words, force_reverse)
        } else if self.stage == 1 {
            self.step_mask(words, force_reverse)
        } else if words.len() == 1 && str_eq(words[0], "}") {
            self.step_close(words, force_reverse)
        } else {
            self.step_entry(words, force_reverse)
        }
    }
}

/// Compiles the description `text` into an instruction set. Masks are
/// reversed within the word size if the header says so or if
/// `force_reverse` is set.
///
/// An error comes with the number of the line at which it was found,
/// counted from 1.
pub fn parse_file(text: &str, force_reverse: bool) -> (r: Result<Instrset, (ErrType, u64)>)
    ensures
        match r {
            Ok(is) => {
                &&& spec_parse_file(text@, force_reverse) == Ok::<InstrsetView, (ErrView, nat)>(
                    is@,
                )
                &&& is.wf()
            },
            Err(e) => spec_parse_file(text@, force_reverse) == Err::<
                InstrsetView,
                (ErrView, nat),
            >((e.0@, e.1 as nat)),
        },
{
    let lines = split_lines(text);
    let ghost texts = spec_texts(lines@);
    let mut parser = Parser::new();
    let mut i: usize = 0;
    proof {
        lemma_parsed_is_well_formed(text@, force_reverse);
    }
    while i < lines.len()
        invariant
            i <= lines.len(),
            texts == spec_texts(lines@),
            match spec_parse_file(text@, force_reverse) {
                Ok(is) => wf_instrset(is),
                Err(_) => true,
            },
            spec_parse_file(text@, force_reverse) == spec_parse_lines(
                texts,
                parser@,
                i as int,
                force_reverse,
            ),
        decreases lines.len() - i,
    {
        let ln: u64 = (i + 1) as u64;
        let words = split_words(lines[i]);
        proof {
            assert(texts[i as int] == lines@[i as int]@);
        }
        if !is_skipped(&words) {
            match parser.step(&words, force_reverse) {
                Ok(Step::Open(next)) => {
                    parser = next;
                },
                Ok(Step::Done(is)) => {
                    return Ok(is);
                },
                Err(why) => {
                    return Err((why, ln));
                },
            }
        }
        i = i + 1;
    }
    Err((ErrType::Other, lines.len() as u64))
}

} // verus!
