//! A sequential source of instruction words over the bytes of a binary.

use vstd::prelude::*;
use vstd::string::StringExecFns;
use vstd::arithmetic::power2::pow2;
use crate::bits::{Wordt, spec_from_le, spec_from_be, wordt_from_le, wordt_from_be};

verus! {

/// What can go wrong while reading words.
#[derive(Clone, Copy, Debug, PartialEq, Eq, Structural)]
pub enum BinReaderErr {
    /// Fewer bytes were left than one word needs.
    InternalIO,
    /// The source could not be taken back to its start.
    Rewind,
}

impl BinReaderErr {
    /// The error in words.
    pub open spec fn spec_message(&self) -> Seq<char> {
        match self {
            BinReaderErr::InternalIO => "Failed to read from binary file: no whole word is left"@,
            BinReaderErr::Rewind => "Failed to rewind binary file"@,
        }
    }

    /// Says the error in words.
    pub fn message(&self) -> (r: String)
        ensures
            r@ == self.spec_message(),
    {
        match self {
            BinReaderErr::InternalIO => String::from_str(
                "Failed to read from binary file: no whole word is left",
            ),
            BinReaderErr::Rewind => String::from_str("Failed to rewind binary file"),
        }
    }
}

/// Word number `i` of `data`, cut into words of `wordsize` bytes.
pub open spec fn spec_word_at(data: Seq<u8>, wordsize: nat, little: bool, i: int) -> Wordt {
    let bytes = data.subrange(i * wordsize, (i + 1) * wordsize);
    if little {
        (spec_from_le(bytes) % pow2(64)) as Wordt
    } else {
        (spec_from_be(bytes) % pow2(64)) as Wordt
    }
}

/// The words of `data`, cut into words of `wordsize` bytes each.
pub open spec fn spec_words(data: Seq<u8>, wordsize: nat, little: bool) -> Seq<Wordt> {
    Seq::new(data.len() / wordsize, |i: int| spec_word_at(data, wordsize, little, i))
}

/// A reader that hands out the words of a binary one after the other and
/// can be taken back to the start.
pub struct Binreader {
    data: Vec<u8>,
    wordsize: usize,
    count: usize,
    pos: usize,
    endian_little: bool,
}

proof fn lemma_word_bounds(i: int, count: int, wordsize: int)
    by (nonlinear_arith)
    requires
        0 <= i < count,
        wordsize > 0,
    ensures
        0 <= i * wordsize,
        (i + 1) * wordsize == i * wordsize + wordsize,
        (i + 1) * wordsize <= count * wordsize,
{
}

impl Binreader {
    #[verifier::type_invariant]
    spec fn inv(&self) -> bool {
        &&& self.wordsize > 0
        &&& self.data@.len() == self.count * self.wordsize
        &&& self.pos <= self.count
    }

    /// All the words of the binary, in order.
    pub closed spec fn words(&self) -> Seq<Wordt> {
        spec_words(self.data@, self.wordsize as nat, self.endian_little)
    }

    /// The index of the word that `next` hands out next.
    pub closed spec fn pos(&self) -> nat {
        self.pos as nat
    }

    /// The words that have not been handed out yet.
    pub open spec fn remaining(&self) -> Seq<Wordt> {
        self.words().skip(self.pos() as int)
    }

    /// A reader over `data` with words of `wordsize` bytes. There is none
    /// when the word size is zero or does not divide the length of `data`.
    pub fn new(wordsize: usize, data: Vec<u8>, endian_little: bool) -> (r: Option<Binreader>)
        ensures
            match r {
                Some(br) => {
                    &&& wordsize > 0
                    &&& data@.len() % (wordsize as nat) == 0
                    &&& br.words() == spec_words(data@, wordsize as nat, endian_little)
                    &&& br.pos() == 0
                },
                None => wordsize == 0 || data@.len() % (wordsize as nat) != 0,
            },
    {
        if wordsize == 0 {
            return None;
        }
        let len = data.len();
        if len % wordsize != 0 {
            return None;
        }
        let count = len / wordsize;
        proof {
            vstd::arithmetic::div_mod::lemma_fundamental_div_mod(len as int, wordsize as int);
            assert(count * wordsize == wordsize * count) by (nonlinear_arith);
        }
        Some(Binreader { data, wordsize, count, pos: 0, endian_little })
    }

    /// The number of words in the binary. The reader never stands beyond
    /// the last of them.
    pub fn n_instrs(&self) -> (n: u64)
        ensures
            n == self.words().len(),
            self.pos() <= self.words().len(),
    {
        proof {
            use_type_invariant(self);
            vstd::arithmetic::div_mod::lemma_div_multiples_vanish(
                self.count as int,
                self.wordsize as int,
            );
            assert(self.count * self.wordsize == self.wordsize * self.count) by (nonlinear_arith);
        }
        self.count as u64
    }

    /// Hands out the next word, assembled with the reader's byte order, or
    /// fails when no whole word is left.
    pub fn next(&mut self) -> (r: Result<Wordt, BinReaderErr>)
        ensures
            final(self).words() == old(self).words(),
            match r {
                Ok(w) => {
                    &&& old(self).pos() < old(self).words().len()
                    &&& w == old(self).words()[old(self).pos() as int]
                    &&& final(self).pos() == old(self).pos() + 1
                },
                Err(e) => {
                    &&& e == BinReaderErr::InternalIO
                    &&& old(self).pos() >= old(self).words().len()
                    &&& final(self).pos() == old(self).pos()
                },
            },
    {
        proof {
            use_type_invariant(&*self);
            vstd::arithmetic::div_mod::lemma_div_multiples_vanish(
                self.count as int,
                self.wordsize as int,
            );
            assert(self.count * self.wordsize == self.wordsize * self.count) by (nonlinear_arith);
        }
        if self.pos >= self.count {
            return Err(BinReaderErr::InternalIO);
        }
        proof {
            lemma_word_bounds(self.pos as int, self.count as int, self.wordsize as int);
            assert(self.pos * self.wordsize + self.wordsize <= self.data.len());
        }
        let start: usize = self.pos * self.wordsize;
        let mut bytes: Vec<u8> = Vec::new();
        let mut k: usize = 0;
        while k < self.wordsize
            invariant
                k <= self.wordsize,
                start + self.wordsize <= self.data.len(),
                bytes@ == self.data@.subrange(start as int, start + k),
            decreases self.wordsize - k,
        {
            bytes.push(self.data[start + k]);
            proof {
                assert(bytes@ =~= self.data@.subrange(start as int, start + k + 1));
            }
            k = k + 1;
        }
        let w = if self.endian_little {
            wordt_from_le(&bytes)
        } else {
            wordt_from_be(&bytes)
        };
        self.pos = self.pos + 1;
        Ok(w)
    }

    /// Takes the reader back to the first word.
    pub fn rewind(&mut self) -> (r: Result<(), BinReaderErr>)
        ensures
            r is Ok,
            final(self).words() == old(self).words(),
            final(self).pos() == 0,
    {
        proof {
            use_type_invariant(&*self);
        }
        self.pos = 0;
        Ok(())
    }
}

} // verus!
