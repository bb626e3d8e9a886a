//! The emit pass: a sweep over the binary that writes the listing, one line
//! for each instruction, with a label line before every instruction that a
//! branch points to.

use vstd::prelude::*;
use vstd::string::StringExecFns;
use vstd::arithmetic::power2::{pow2, lemma2_to64, lemma2_to64_rest, lemma_pow2_strictly_increases};
use crate::bits::{Wordt, Bitmask, lemma_or_assoc, minimize, twoscomp, spec_minimize};
use crate::binreader::{Binreader, BinReaderErr};
use crate::branch::{BranchTree, tree_first};
use crate::instrset::{
    FieldView, Fmt, FmtType, Instrfmt, Instrset, InstrsetView, branch_target, field_value,
    fields_underflow, get_fmt, leaf_view, spec_branch_target, spec_field_signed,
    spec_field_underflows, spec_field_value, spec_fields_underflow, spec_get_fmt,
    spec_instr_fails, spec_is_forward, spec_masks_met,
};
use crate::text::{
    push_bin, push_dec, push_hex, push_label, push_signed, spec_bin, spec_dec, spec_hex,
    spec_label, spec_signed,
};

verus! {

/// Why an instruction could not be written.
#[derive(Clone, Copy, Debug, PartialEq, Eq, Structural)]
pub enum DeasmErrType {
    /// The word matches no instruction, or branches to above the first
    /// instruction.
    UnknownOp(Wordt),
    /// No word could be read.
    Binread(BinReaderErr),
}

/// An error of the emit pass, with the index of the instruction at which it
/// happened.
#[derive(Clone, Copy, Debug, PartialEq, Eq, Structural)]
pub struct DeasmErr {
    pub typ: DeasmErrType,
    pub words_read: Wordt,
}

impl DeasmErr {
    /// The error in words, with the index and the word in hexadecimal.
    pub open spec fn spec_message(&self) -> Seq<char> {
        match self.typ {
            DeasmErrType::UnknownOp(w) => "[At "@ + spec_hex(self.words_read as nat)
                + "] Unknown instruction: "@ + spec_hex(w as nat),
            DeasmErrType::Binread(why) => "[At "@ + spec_hex(self.words_read as nat)
                + "] I/O error: "@ + why.spec_message(),
        }
    }

    /// Says the error in words.
    pub fn message(&self) -> (r: String)
        ensures
            r@ == self.spec_message(),
    {
        let mut r = String::from_str("[At ");
        push_hex(&mut r, self.words_read);
        match self.typ {
            DeasmErrType::UnknownOp(w) => {
                r.append("] Unknown instruction: ");
                push_hex(&mut r, w);
            },
            DeasmErrType::Binread(why) => {
                r.append("] I/O error: ");
                let cause = why.message();
                r.append(cause.as_str());
            },
        }
        r
    }
}

/// The text of field `f` of the word `w` at index `i`: a space and the
/// field's value in the form that its kind asks for, or nothing for a field
/// that is not shown.
pub open spec fn spec_field_text(i: Wordt, w: Wordt, f: FieldView) -> Seq<char> {
    match f.typ {
        FmtType::Addr => seq![' '] + spec_hex(spec_field_value(w, f) as nat),
        FmtType::Unsigned => seq![' '] + spec_dec(spec_field_value(w, f) as nat),
        FmtType::Signed => seq![' '] + spec_signed(spec_field_signed(w, f)),
        FmtType::Binary => seq![' '] + spec_bin(spec_field_value(w, f) as nat),
        FmtType::Ignore => Seq::empty(),
        _ => seq![' '] + spec_label(spec_branch_target(i, w, f) as nat),
    }
}

/// The texts of the first `upto` fields, in order.
pub open spec fn spec_fields_text(i: Wordt, w: Wordt, fields: Seq<FieldView>, upto: int) -> Seq<
    char,
>
    decreases upto,
{
    if upto <= 0 {
        Seq::empty()
    } else {
        spec_fields_text(i, w, fields, upto - 1) + spec_field_text(i, w, fields[upto - 1])
    }
}

/// The union of the masks of the first `upto` fields.
pub open spec fn spec_fields_mask(fields: Seq<FieldView>, upto: int) -> Bitmask
    decreases upto,
{
    if upto <= 0 {
        0
    } else {
        spec_fields_mask(fields, upto - 1) | fields[upto - 1].mask
    }
}

/// The targets of the forward branches among the first `upto` fields.
pub open spec fn spec_fields_forward_targets(
    i: Wordt,
    w: Wordt,
    fields: Seq<FieldView>,
    upto: int,
) -> Set<Wordt>
    decreases upto,
{
    if upto <= 0 {
        Set::empty()
    } else {
        let before = spec_fields_forward_targets(i, w, fields, upto - 1);
        if spec_is_forward(i, w, fields[upto - 1]) {
            before.insert(spec_branch_target(i, w, fields[upto - 1]))
        } else {
            before
        }
    }
}

/// The text for the bits of `w` that neither the opcode masks nor the
/// fields cover: nothing when `covered` holds every bit of a word of
/// `wordsize` bytes, else a space and the uncovered bits, gathered, in
/// hexadecimal.
pub open spec fn spec_tail_text(w: Wordt, covered: Bitmask, wordsize: nat) -> Seq<char> {
    if covered < pow2(8 * wordsize) - 1 {
        seq![' '] + spec_hex(spec_minimize(w as nat, (!covered) as nat))
    } else {
        Seq::empty()
    }
}

/// The line of the word `w` at index `i`: the instruction's name, its
/// fields, the uncovered bits if there are any, and a line feed. Empty when
/// no instruction matches.
pub open spec fn spec_instr_line(i: Wordt, w: Wordt, is: InstrsetView) -> Seq<char> {
    match spec_get_fmt(w, is.set) {
        Some(leaf) => leaf.name + spec_fields_text(i, w, leaf.fields, leaf.fields.len() as int)
            + spec_tail_text(
            w,
            spec_masks_met(w, is.set) | spec_fields_mask(leaf.fields, leaf.fields.len() as int),
            is.wordsize,
        ) + seq!['\n'],
        None => Seq::empty(),
    }
}

/// The targets of the forward branches of the word `w` at index `i`.
pub open spec fn spec_instr_forward_targets(i: Wordt, w: Wordt, is: InstrsetView) -> Set<Wordt> {
    match spec_get_fmt(w, is.set) {
        Some(leaf) => spec_fields_forward_targets(i, w, leaf.fields, leaf.fields.len() as int),
        None => Set::empty(),
    }
}

/// The label line for the instruction at index `i`.
pub open spec fn spec_label_line(i: Wordt) -> Seq<char> {
    spec_label(i as nat) + seq![':', '\n']
}

/// `x` is the least element of `s`.
pub open spec fn spec_is_least(s: Set<Wordt>, x: Wordt) -> bool {
    s.contains(x) && forall|y: Wordt| s.contains(y) ==> x <= y
}

/// What the emit pass has produced at some point: the pending label
/// indices, the text written, and the indices at which a label line was
/// written.
pub struct EmitState {
    pub tree: Set<Wordt>,
    pub out: Seq<char>,
    pub labels: Seq<Wordt>,
}

/// The start of the round for index `i`: if `i` is the least pending label
/// index, its label line is written and the index leaves the set.
pub open spec fn spec_emit_label(i: Wordt, st: EmitState) -> EmitState {
    if spec_is_least(st.tree, i) {
        EmitState {
            tree: st.tree.remove(i),
            out: st.out + spec_label_line(i),
            labels: st.labels.push(i),
        }
    } else {
        st
    }
}

/// The whole round for the word `w` at index `i`: the label line if one is
/// due, then the instruction's line, with the targets of its forward
/// branches added to the pending label indices.
pub open spec fn spec_emit_round(i: Wordt, w: Wordt, is: InstrsetView, st: EmitState) -> EmitState {
    let labelled = spec_emit_label(i, st);
    EmitState {
        tree: labelled.tree.union(spec_instr_forward_targets(i, w, is)),
        out: labelled.out + spec_instr_line(i, w, is),
        labels: labelled.labels,
    }
}

/// The state after the rounds for the first `upto` words of `stream`.
pub open spec fn spec_emit(stream: Seq<Wordt>, is: InstrsetView, start: EmitState, upto: int) -> EmitState
    decreases upto,
{
    if upto <= 0 {
        start
    } else {
        spec_emit_round(
            (upto - 1) as Wordt,
            stream[upto - 1],
            is,
            spec_emit(stream, is, start, upto - 1),
        )
    }
}

/// The state in which the emit pass starts: the label indices known so
/// far, the text written so far, and no label line written yet.
pub open spec fn spec_emit_start(tree: Set<Wordt>, out: Seq<char>) -> EmitState {
    EmitState { tree, out, labels: Seq::empty() }
}

proof fn lemma_labels_below(stream: Seq<Wordt>, is: InstrsetView, start: EmitState, upto: int)
    requires
        0 <= upto <= u64::MAX,
        start.labels.len() == 0,
    ensures
        forall|j: int|
            0 <= j < spec_emit(stream, is, start, upto).labels.len() ==> (#[trigger] spec_emit(
                stream,
                is,
                start,
                upto,
            ).labels[j]) < upto,
    decreases upto,
{
    if upto > 0 {
        lemma_labels_below(stream, is, start, upto - 1);
        let before = spec_emit(stream, is, start, upto - 1);
        let after = spec_emit(stream, is, start, upto);
        let i = (upto - 1) as Wordt;
        assert(after.labels == spec_emit_label(i, before).labels);
        assert forall|j: int| 0 <= j < after.labels.len() implies (#[trigger] after.labels[j])
            < upto by {
            if j < before.labels.len() {
                assert(after.labels[j] == before.labels[j]);
            }
        }
    }
}

/// No label line is ever written at an index at or beyond the number of
/// rounds made: whatever indices are pending, every label line that the
/// pass writes stands at the index of an instruction of the binary.
pub proof fn lemma_labels_within_rounds(
    stream: Seq<Wordt>,
    is: InstrsetView,
    tree: Set<Wordt>,
    out: Seq<char>,
    rounds: int,
)
    requires
        0 <= rounds <= u64::MAX,
    ensures
        forall|j: int|
            0 <= j < spec_emit(stream, is, spec_emit_start(tree, out), rounds).labels.len() ==> (
            #[trigger] spec_emit(stream, is, spec_emit_start(tree, out), rounds).labels[j])
                <= rounds - 1,
{
    lemma_labels_below(stream, is, spec_emit_start(tree, out), rounds);
}

/// Appends the text of field `f` to `out` and, for a forward branch, adds
/// its target to `tree`.
fn emit_field(i: u64, w: Wordt, f: &Fmt, tree: &mut BranchTree, out: &mut String)
    requires
        !spec_field_underflows(i, w, f@),
    ensures
        final(out)@ == old(out)@ + spec_field_text(i, w, f@),
        final(tree)@ == (if spec_is_forward(i, w, f@) {
            old(tree)@.insert(spec_branch_target(i, w, f@))
        } else {
            old(tree)@
        }),
{
    proof {
        reveal_strlit(" ");
        assert(" "@ =~= seq![' ']);
    }
    let ghost base = out@;
    let fv = field_value(w, f);
    match f.typ {
        FmtType::Ignore => {
            proof {
                assert(base + Seq::<char>::empty() =~= base);
            }
        },
        FmtType::Addr => {
            out.append(" ");
            push_hex(out, fv.0);
            proof {
                assert(base + seq![' '] + spec_hex(fv.0 as nat) =~= base + (seq![' '] + spec_hex(
                    fv.0 as nat,
                )));
            }
        },
        FmtType::Unsigned => {
            out.append(" ");
            push_dec(out, fv.0);
            proof {
                assert(base + seq![' '] + spec_dec(fv.0 as nat) =~= base + (seq![' '] + spec_dec(
                    fv.0 as nat,
                )));
            }
        },
        FmtType::Signed => {
            out.append(" ");
            let s = twoscomp(fv);
            push_signed(out, s);
            proof {
                assert(base + seq![' '] + spec_signed(s as int) =~= base + (seq![' ']
                    + spec_signed(s as int)));
            }
        },
        FmtType::Binary => {
            out.append(" ");
            push_bin(out, fv.0);
            proof {
                assert(base + seq![' '] + spec_bin(fv.0 as nat) =~= base + (seq![' '] + spec_bin(
                    fv.0 as nat,
                )));
            }
        },
        _ => {
            let target = branch_target(i, w, f);
            out.append(" ");
            push_label(out, target);
            proof {
                assert(base + seq![' '] + spec_label(target as nat) =~= base + (seq![' ']
                    + spec_label(target as nat)));
            }
            let forward = match f.typ {
                FmtType::Dbranch => true,
                FmtType::Sbranch => fv.0 >= i,
                FmtType::Ibranch => twoscomp(fv) > 0,
                _ => false,
            };
            if forward {
                tree.insert(target);
            }
        },
    }
}

/// Tells whether `covered` leaves some bit of a word of `wordsize` bytes
/// uncovered.
fn has_tail(covered: Bitmask, wordsize: usize) -> (r: bool)
    ensures
        r == (covered < pow2(8 * wordsize as nat) - 1),
{
    proof {
        lemma2_to64();
        lemma2_to64_rest();
    }
    if wordsize > 8 {
        proof {
            lemma_pow2_strictly_increases(64, 8 * wordsize as nat);
        }
        true
    } else if wordsize == 8 {
        covered < u64::MAX
    } else {
        let bits: u64 = 8 * (wordsize as u64);
        proof {
            vstd::bits::lemma_u64_pow2_no_overflow(bits as nat);
            vstd::bits::lemma_u64_shl_is_mul(1, bits);
        }
        covered < (1u64 << bits) - 1
    }
}

/// Writes the line of the word `w`, the instruction at index `i`, to `out`,
/// and adds the targets of its forward branches to `tree`.
///
/// Fails, and changes nothing, when no instruction matches the word or one
/// of its upward branches reaches above the first instruction.
pub fn deassemble_instr(
    w: Wordt,
    is: &Instrset,
    tree: &mut BranchTree,
    i: u64,
    out: &mut String,
) -> (r: Result<(), DeasmErr>)
    ensures
        match r {
            Ok(()) => {
                &&& !spec_instr_fails(i, w, is@.set)
                &&& final(out)@ == old(out)@ + spec_instr_line(i, w, is@)
                &&& final(tree)@ == old(tree)@.union(spec_instr_forward_targets(i, w, is@))
            },
            Err(e) => {
                &&& spec_instr_fails(i, w, is@.set)
                &&& e == (DeasmErr { typ: DeasmErrType::UnknownOp(w), words_read: 0 })
                &&& final(out)@ == old(out)@
                &&& final(tree)@ == old(tree)@
            },
        },
{
    let mut mask_total: Bitmask = 0;
    let leaf = match get_fmt(w, &is.set, &mut mask_total) {
        Some(leaf) => leaf,
        None => {
            return Err(DeasmErr { typ: DeasmErrType::UnknownOp(w), words_read: 0 });
        },
    };
    if fields_underflow(i, w, &leaf.1) {
        return Err(DeasmErr { typ: DeasmErrType::UnknownOp(w), words_read: 0 });
    }
    let fmt: &Instrfmt = &leaf.1;
    let ghost fields = fmt@;
    let ghost met = spec_masks_met(w, is@.set);
    proof {
        lemma_or_assoc(met, 0, 0);
        assert(mask_total == 0 | met);
        assert(mask_total == met) by (bit_vector)
            requires
                mask_total == 0 | met,
        ;
        assert(leaf_view(*leaf).fields == fields);
    }
    out.append(leaf.0.as_str());
    let ghost named = out@;
    let mut j: usize = 0;
    proof {
        assert(named + spec_fields_text(i, w, fields, 0) =~= named);
        assert(old(tree)@.union(spec_fields_forward_targets(i, w, fields, 0)) =~= old(tree)@);
    }
    while j < fmt.fmt.len()
        invariant
            j <= fmt.fmt.len(),
            fields == fmt@,
            fields.len() == fmt.fmt.len(),
            !spec_fields_underflow(i, w, fields, fields.len() as int),
            out@ == named + spec_fields_text(i, w, fields, j as int),
            tree@ == old(tree)@.union(spec_fields_forward_targets(i, w, fields, j as int)),
            mask_total == met | spec_fields_mask(fields, j as int),
        decreases fmt.fmt.len() - j,
    {
        let f = &fmt.fmt[j];
        let ghost text_before = spec_fields_text(i, w, fields, j as int);
        let ghost targets_before = spec_fields_forward_targets(i, w, fields, j as int);
        proof {
            assert(fields[j as int] == f@);
            lemma_or_assoc(met, spec_fields_mask(fields, j as int), f.mask);
        }
        emit_field(i, w, f, tree, out);
        proof {
            assert(named + text_before + spec_field_text(i, w, f@) =~= named + (text_before
                + spec_field_text(i, w, f@)));
            if spec_is_forward(i, w, f@) {
                let t = spec_branch_target(i, w, f@);
                assert(old(tree)@.union(targets_before).insert(t) =~= old(tree)@.union(
                    targets_before.insert(t),
                ));
            }
        }
        mask_total = mask_total | f.mask;
        j = j + 1;
    }
    let ghost fielded = out@;
    if has_tail(mask_total, is.wordsize) {
        proof {
            reveal_strlit(" ");
            assert(" "@ =~= seq![' ']);
        }
        out.append(" ");
        let rest = minimize(w, !mask_total);
        push_hex(out, rest.0);
        proof {
            assert(fielded + seq![' '] + spec_hex(rest.0 as nat) =~= fielded + spec_tail_text(
                w,
                mask_total,
                is@.wordsize,
            ));
        }
    } else {
        proof {
            assert(fielded =~= fielded + spec_tail_text(w, mask_total, is@.wordsize));
        }
    }
    proof {
        reveal_strlit("\n");
        assert("\n"@ =~= seq!['\n']);
    }
    let ghost tailed = out@;
    out.append("\n");
    proof {
        let name = leaf_view(*leaf).name;
        let texts = spec_fields_text(i, w, fields, fields.len() as int);
        let tail = spec_tail_text(w, mask_total, is@.wordsize);
        assert(named == old(out)@ + name);
        assert(out@ == old(out)@ + name + texts + tail + seq!['\n']);
        assert(old(out)@ + name + texts + tail + seq!['\n'] =~= old(out)@ + (name + texts + tail
            + seq!['\n']));
    }
    Ok(())
}

/// Writes the listing of the words that `br` still holds to `out`, making
/// as many rounds as the binary has words. The word read in round `i`
/// counts as the instruction at index `i`. Before each instruction whose
/// index is the least in `tree`, a label line is written and the index
/// leaves `tree`; the targets of forward branches enter `tree` as they are
/// met.
///
/// The pass stops at the first round in which no word is left or the word
/// cannot be decoded. `out` and `tree` then hold what the rounds before
/// gave, and the label line of the failing round if one was due.
pub fn deassemble_file(
    br: &mut Binreader,
    is: &Instrset,
    tree: &mut BranchTree,
    out: &mut String,
) -> (r: Result<(), DeasmErr>)
    ensures
        final(br).words() == old(br).words(),
        match r {
            Ok(()) => {
                let done = spec_emit(
                    old(br).remaining(),
                    is@,
                    spec_emit_start(old(tree)@, old(out)@),
                    old(br).words().len() as int,
                );
                &&& old(br).words().len() <= old(br).remaining().len()
                &&& forall|k: int|
                    0 <= k < old(br).words().len() ==> !spec_instr_fails(
                        k as Wordt,
                        #[trigger] old(br).remaining()[k],
                        is@.set,
                    )
                &&& final(out)@ == done.out
                &&& final(tree)@ == done.tree
            },
            Err(e) => {
                let done = spec_emit_label(
                    e.words_read,
                    spec_emit(
                        old(br).remaining(),
                        is@,
                        spec_emit_start(old(tree)@, old(out)@),
                        e.words_read as int,
                    ),
                );
                &&& e.words_read < old(br).words().len()
                &&& forall|k: int|
                    0 <= k < e.words_read ==> !spec_instr_fails(
                        k as Wordt,
                        #[trigger] old(br).remaining()[k],
                        is@.set,
                    )
                &&& match e.typ {
                    DeasmErrType::Binread(cause) => {
                        &&& cause == BinReaderErr::InternalIO
                        &&& e.words_read == old(br).remaining().len()
                    },
                    DeasmErrType::UnknownOp(w) => {
                        &&& e.words_read < old(br).remaining().len()
                        &&& w == old(br).remaining()[e.words_read as int]
                        &&& spec_instr_fails(e.words_read, w, is@.set)
                    },
                }
                &&& final(out)@ == done.out
                &&& final(tree)@ == done.tree
            },
        },
{
    let count: u64 = br.n_instrs();
    let ghost stream = br.remaining();
    let ghost first = br.pos();
    let ghost start = spec_emit_start(old(tree)@, old(out)@);
    let mut i: u64 = 0;
    proof {
        assert(stream.len() == count - first);
        reveal_strlit(":\n");
        assert(":\n"@ =~= seq![':', '\n']);
    }
    while i < count
        invariant
            i <= count,
            count == old(br).words().len(),
            br.words() == old(br).words(),
            stream == old(br).remaining(),
            first + stream.len() == count,
            first == old(br).pos(),
            br.pos() == first + i,
            i <= stream.len(),
            start == spec_emit_start(old(tree)@, old(out)@),
            ":\n"@ == seq![':', '\n'],
            forall|k: int|
                0 <= k < i ==> !spec_instr_fails(k as Wordt, #[trigger] stream[k], is@.set),
            tree@ == spec_emit(stream, is@, start, i as int).tree,
            out@ == spec_emit(stream, is@, start, i as int).out,
        decreases count - i,
    {
        let ghost before = spec_emit(stream, is@, start, i as int);
        let ghost labelled = spec_emit_label(i, before);
        let due = match tree_first(tree) {
            Some(least) => least == i,
            None => false,
        };
        proof {
            assert(due == spec_is_least(before.tree, i));
        }
        if due {
            push_label(out, i);
            out.append(":\n");
            tree.remove(&i);
            proof {
                assert(out@ =~= before.out + spec_label_line(i));
            }
        }
        proof {
            assert(out@ == labelled.out);
            assert(tree@ == labelled.tree);
        }
        let w = match br.next() {
            Ok(w) => w,
            Err(why) => {
                return Err(DeasmErr { typ: DeasmErrType::Binread(why), words_read: i });
            },
        };
        proof {
            assert(stream == old(br).words().skip(first as int));
            assert(stream[i as int] == old(br).words()[first + i]);
            assert(w == stream[i as int]);
        }
        match deassemble_instr(w, is, tree, i, out) {
            Ok(()) => {},
            Err(e) => {
                return Err(DeasmErr { typ: e.typ, words_read: i });
            },
        }
        i = i + 1;
    }
    Ok(())
}

} // verus!
