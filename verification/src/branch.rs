//! The label pass: a sweep over the binary that collects the targets of all
//! branches whose label must stand before the branching instruction.

use vstd::prelude::*;
use vstd::string::StringExecFns;
use std::collections::BTreeSet;
use crate::binreader::Binreader;
use crate::bits::{Wordt, twoscomp};
use crate::instrset::{
    FieldView, FmtType, Instrfmt, Maskmap, TrieView, branch_target, field_value,
    fields_underflow, get_fmt, spec_branch_target, spec_fields_underflow, spec_get_fmt,
    spec_instr_fails, spec_is_upward,
};
use crate::text::{push_hex, spec_hex};

verus! {

/// The set of instruction indices that get a label, ordered by index.
pub type BranchTree = BTreeSet<u64>;

/// Why the label pass stopped.
#[derive(Clone, Copy, Debug, PartialEq, Eq, Structural)]
pub enum GenLabelsErr {
    /// No word could be read for the instruction at this index.
    IO(u64),
    /// The word at this index matches no instruction, or branches to above
    /// the first instruction.
    Unrecognized(u64, Wordt),
    /// The reader could not be taken back to the start after the pass.
    IORewind,
}

impl GenLabelsErr {
    /// The error in words, with the index and the word in hexadecimal.
    pub open spec fn spec_message(&self) -> Seq<char> {
        match self {
            GenLabelsErr::IO(when) => "[At "@ + spec_hex(*when as nat)
                + "] Internal I/O error: could not get next instruction"@,
            GenLabelsErr::Unrecognized(when, what) => "[At "@ + spec_hex(*when as nat)
                + "] Unknown instruction: "@ + spec_hex(*what as nat),
            GenLabelsErr::IORewind => "[After generating labels] Failed to rewind file"@,
        }
    }

    /// Says the error in words.
    pub fn message(&self) -> (r: String)
        ensures
            r@ == self.spec_message(),
    {
        match self {
            GenLabelsErr::IO(when) => {
                let mut r = String::from_str("[At ");
                push_hex(&mut r, *when);
                r.append("] Internal I/O error: could not get next instruction");
                r
            },
            GenLabelsErr::Unrecognized(when, what) => {
                let mut r = String::from_str("[At ");
                push_hex(&mut r, *when);
                r.append("] Unknown instruction: ");
                push_hex(&mut r, *what);
                r
            },
            GenLabelsErr::IORewind => String::from_str(
                "[After generating labels] Failed to rewind file",
            ),
        }
    }
}

/// `BTreeSet::first`: the least element of the set, or nothing when the set
/// is empty. The standard library documents the first element as the
/// minimum of the set.
#[verifier::external_body]
pub(crate) fn tree_first(tree: &BranchTree) -> (r: Option<u64>)
    ensures
        match r {
            Some(least) => tree@.contains(least) && forall|x: u64|
                tree@.contains(x) ==> least <= x,
            None => forall|x: u64| !tree@.contains(x),
        },
{
    match tree.first() {
        Some(least) => Some(*least),
        None => None,
    }
}

/// The targets of the upward branches among the first `upto` fields of the
/// word `w` at index `i`.
pub open spec fn spec_fields_up_targets(
    i: Wordt,
    w: Wordt,
    fields: Seq<FieldView>,
    upto: int,
) -> Set<Wordt>
    decreases upto,
{
    if upto <= 0 {
        Set::empty()
    } else {
        let before = spec_fields_up_targets(i, w, fields, upto - 1);
        if spec_is_upward(i, w, fields[upto - 1]) {
            before.insert(spec_branch_target(i, w, fields[upto - 1]))
        } else {
            before
        }
    }
}

/// The targets of the upward branches of the word `w` at index `i`.
pub open spec fn spec_instr_up_targets(i: Wordt, w: Wordt, trie: TrieView) -> Set<Wordt> {
    match spec_get_fmt(w, trie) {
        Some(leaf) => spec_fields_up_targets(i, w, leaf.fields, leaf.fields.len() as int),
        None => Set::empty(),
    }
}

/// The targets of the upward branches of the first `upto` words of
/// `stream`, each word standing at its position in the stream.
pub open spec fn spec_upward_targets(stream: Seq<Wordt>, trie: TrieView, upto: int) -> Set<Wordt>
    decreases upto,
{
    if upto <= 0 {
        Set::empty()
    } else {
        spec_upward_targets(stream, trie, upto - 1).union(
            spec_instr_up_targets((upto - 1) as Wordt, stream[upto - 1], trie),
        )
    }
}

/// `t` is the target of an upward branch in field `j` of word `i` of the
/// stream.
pub open spec fn spec_is_upward_target_at(
    stream: Seq<Wordt>,
    trie: TrieView,
    t: Wordt,
    i: int,
    j: int,
) -> bool {
    match spec_get_fmt(stream[i], trie) {
        Some(leaf) => {
            &&& 0 <= j < leaf.fields.len()
            &&& spec_is_upward(i as Wordt, stream[i], leaf.fields[j])
            &&& t == spec_branch_target(i as Wordt, stream[i], leaf.fields[j])
        },
        None => false,
    }
}

proof fn lemma_fields_up_targets_exact(
    i: Wordt,
    w: Wordt,
    fields: Seq<FieldView>,
    upto: int,
    t: Wordt,
)
    requires
        0 <= upto <= fields.len(),
    ensures
        spec_fields_up_targets(i, w, fields, upto).contains(t) <==> exists|j: int|
            0 <= j < upto && spec_is_upward(i, w, #[trigger] fields[j]) && t == spec_branch_target(
                i,
                w,
                fields[j],
            ),
    decreases upto,
{
    if upto > 0 {
        lemma_fields_up_targets_exact(i, w, fields, upto - 1, t);
        if spec_fields_up_targets(i, w, fields, upto).contains(t) {
            if !spec_fields_up_targets(i, w, fields, upto - 1).contains(t) {
                assert(spec_is_upward(i, w, fields[upto - 1]));
            }
        }
    }
}

/// The label set that the pass collects holds exactly the targets of the
/// upward branches, of the absolute branches that point backward, and of
/// the signed branches that do not go forward: an index is in the set if
/// and only if some field of some word of the stream is such a branch to it.
pub proof fn lemma_upward_targets_exact(stream: Seq<Wordt>, trie: TrieView, upto: int, t: Wordt)
    requires
        0 <= upto <= stream.len(),
        upto <= u64::MAX,
    ensures
        spec_upward_targets(stream, trie, upto).contains(t) <==> exists|i: int, j: int|
            0 <= i < upto && #[trigger] spec_is_upward_target_at(stream, trie, t, i, j),
    decreases upto,
{
    if upto > 0 {
        let i = upto - 1;
        lemma_upward_targets_exact(stream, trie, i, t);
        match spec_get_fmt(stream[i], trie) {
            Some(leaf) => {
                lemma_fields_up_targets_exact(
                    i as Wordt,
                    stream[i],
                    leaf.fields,
                    leaf.fields.len() as int,
                    t,
                );
                if spec_instr_up_targets(i as Wordt, stream[i], trie).contains(t) {
                    let j = choose|j: int|
                        0 <= j < leaf.fields.len() && spec_is_upward(
                            i as Wordt,
                            stream[i],
                            #[trigger] leaf.fields[j],
                        ) && t == spec_branch_target(i as Wordt, stream[i], leaf.fields[j]);
                    assert(spec_is_upward_target_at(stream, trie, t, i, j));
                }
            },
            None => {},
        }
        if exists|i2: int, j: int|
            0 <= i2 < upto && #[trigger] spec_is_upward_target_at(stream, trie, t, i2, j) {
            let (i2, j) = choose|i2: int, j: int|
                0 <= i2 < upto && #[trigger] spec_is_upward_target_at(stream, trie, t, i2, j);
            if i2 < i {
                assert(spec_upward_targets(stream, trie, i).contains(t));
            } else {
                let leaf = spec_get_fmt(stream[i], trie)->Some_0;
                assert(spec_is_upward(i as Wordt, stream[i], leaf.fields[j]));
            }
        }
    }
}

/// Adds to `tree` the upward targets of the instruction `fmt` that the word
/// `w` at index `i` selects.
fn add_instr_ups(i: u64, w: Wordt, fmt: &Instrfmt, tree: &mut BranchTree)
    requires
        !spec_fields_underflow(i, w, fmt@, fmt@.len() as int),
    ensures
        final(tree)@ == old(tree)@.union(spec_fields_up_targets(i, w, fmt@, fmt@.len() as int)),
{
    let mut j: usize = 0;
    proof {
        assert(old(tree)@.union(spec_fields_up_targets(i, w, fmt@, 0)) =~= old(tree)@);
    }
    while j < fmt.fmt.len()
        invariant
            j <= fmt.fmt.len(),
            fmt@.len() == fmt.fmt.len(),
            !spec_fields_underflow(i, w, fmt@, fmt@.len() as int),
            tree@ == old(tree)@.union(spec_fields_up_targets(i, w, fmt@, j as int)),
        decreases fmt.fmt.len() - j,
    {
        let f = &fmt.fmt[j];
        let ghost before = spec_fields_up_targets(i, w, fmt@, j as int);
        proof {
            assert(fmt@[j as int] == f@);
        }
        let upward = match f.typ {
            FmtType::Ubranch => true,
            FmtType::Sbranch => field_value(w, f).0 < i,
            FmtType::Ibranch => twoscomp(field_value(w, f)) <= 0,
            _ => false,
        };
        if upward {
            let target = branch_target(i, w, f);
            tree.insert(target);
            proof {
                assert(old(tree)@.union(before).insert(target) =~= old(tree)@.union(
                    before.insert(target),
                ));
            }
        }
        j = j + 1;
    }
}

/// Sweeps over the words that `br` still holds, as many times as the binary
/// has words, and adds to `tree` the target of every branch whose label must
/// stand before it. The word read in round `i` counts as the instruction at
/// index `i`.
///
/// The pass stops at the first round in which no word is left or the word
/// cannot be decoded; `tree` then holds what the rounds before gave. After
/// a full pass the reader is back at its first word.
pub fn add_branch_ups(br: &mut Binreader, tree: &mut BranchTree, set: &Maskmap) -> (r: Result<
    (),
    GenLabelsErr,
>)
    ensures
        final(br).words() == old(br).words(),
        match r {
            Ok(()) => {
                &&& old(br).words().len() <= old(br).remaining().len()
                &&& forall|k: int|
                    0 <= k < old(br).words().len() ==> !spec_instr_fails(
                        k as Wordt,
                        #[trigger] old(br).remaining()[k],
                        set.view(),
                    )
                &&& final(tree)@ == old(tree)@.union(
                    spec_upward_targets(
                        old(br).remaining(),
                        set.view(),
                        old(br).words().len() as int,
                    ),
                )
                &&& final(br).pos() == 0
            },
            Err(GenLabelsErr::IO(i)) => {
                &&& i < old(br).words().len()
                &&& i == old(br).remaining().len()
                &&& forall|k: int|
                    0 <= k < i ==> !spec_instr_fails(
                        k as Wordt,
                        #[trigger] old(br).remaining()[k],
                        set.view(),
                    )
                &&& final(tree)@ == old(tree)@.union(
                    spec_upward_targets(old(br).remaining(), set.view(), i as int),
                )
            },
            Err(GenLabelsErr::Unrecognized(i, w)) => {
                &&& i < old(br).words().len()
                &&& i < old(br).remaining().len()
                &&& w == old(br).remaining()[i as int]
                &&& spec_instr_fails(i, w, set.view())
                &&& forall|k: int|
                    0 <= k < i ==> !spec_instr_fails(
                        k as Wordt,
                        #[trigger] old(br).remaining()[k],
                        set.view(),
                    )
                &&& final(tree)@ == old(tree)@.union(
                    spec_upward_targets(old(br).remaining(), set.view(), i as int),
                )
            },
            Err(GenLabelsErr::IORewind) => false,
        },
{
    let count: u64 = br.n_instrs();
    let ghost stream = br.remaining();
    let ghost start = br.pos();
    let mut i: u64 = 0;
    proof {
        assert(stream.len() == count - start);
        assert(old(tree)@.union(spec_upward_targets(stream, set.view(), 0)) =~= old(tree)@);
    }
    while i < count
        invariant
            i <= count,
            count == old(br).words().len(),
            br.words() == old(br).words(),
            stream == old(br).remaining(),
            start == old(br).pos(),
            start + stream.len() == count,
            br.pos() == start + i,
            i <= stream.len(),
            forall|k: int|
                0 <= k < i ==> !spec_instr_fails(k as Wordt, #[trigger] stream[k], set.view()),
            tree@ == old(tree)@.union(spec_upward_targets(stream, set.view(), i as int)),
        decreases count - i,
    {
        let w = match br.next() {
            Ok(w) => w,
            Err(_) => {
                return Err(GenLabelsErr::IO(i));
            },
        };
        proof {
            assert(w == stream[i as int]);
        }
        let mut mask: Wordt = 0;
        let leaf = match get_fmt(w, set, &mut mask) {
            Some(leaf) => leaf,
            None => {
                return Err(GenLabelsErr::Unrecognized(i, w));
            },
        };
        if fields_underflow(i, w, &leaf.1) {
            return Err(GenLabelsErr::Unrecognized(i, w));
        }
        let ghost before = tree@;
        add_instr_ups(i, w, &leaf.1, tree);
        proof {
            let earlier = spec_upward_targets(stream, set.view(), i as int);
            let here = spec_instr_up_targets(i, w, set.view());
            assert(old(tree)@.union(earlier).union(here) =~= old(tree)@.union(
                earlier.union(here),
            ));
        }
        i = i + 1;
    }
    match br.rewind() {
        Ok(()) => Ok(()),
        Err(_) => Err(GenLabelsErr::IORewind),
    }
}

} // verus!
