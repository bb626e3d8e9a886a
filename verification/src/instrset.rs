//! The instruction-set model: a trie of bit masks whose leaves are
//! instruction templates, and the walk that matches a word against it.

use vstd::prelude::*;
use std::collections::HashMap;
use crate::bits::{Wordt, Bitmask, BitOp, spec_align, spec_minimize, lemma_align_of_minimize, lemma_or_assoc, popcount, spec_apply_ops, spec_twoscomp, spec_wrap, minimize, apply_bit_ops, twoscomp};

verus! {

/// How one field of an instruction is shown.
#[derive(Clone, Copy, Debug, PartialEq, Eq, Structural)]
pub enum FmtType {
    /// A memory address, in hexadecimal.
    Addr,
    /// A two's complement integer, in decimal.
    Signed,
    /// A non-negative integer, in decimal.
    Unsigned,
    /// A bit pattern, in binary.
    Binary,
    /// A branch target given as a distance above the current instruction.
    Ubranch,
    /// A branch target given as a distance below the current instruction.
    Dbranch,
    /// A branch target given as a signed distance from the current
    /// instruction.
    Ibranch,
    /// A branch target given as an absolute instruction index.
    Sbranch,
    /// A field that is not shown.
    Ignore,
}

/// One field of an instruction: the bits it occupies, how it is shown, and
/// the operations applied to its value before that.
pub struct Fmt {
    pub typ: FmtType,
    pub mask: Bitmask,
    pub ops: Vec<BitOp>,
}

/// The fields of an instruction, in the order in which they are shown. The
/// opcode is not among them.
pub struct Instrfmt {
    pub fmt: Vec<Fmt>,
}

/// A node of the trie: an inner table, or an instruction with its name.
pub enum Node {
    Branch(Maskmap),
    Instr((String, Instrfmt)),
}

/// A table keyed by the bits of a word under `mask`, left in place.
pub struct Maskmap {
    pub mask: Bitmask,
    pub map: HashMap<Wordt, Node>,
}

/// A whole instruction set. `reverse_width` is the number of bytes within
/// which every mask of the description was bit-reversed, or 0 if none was.
pub struct Instrset {
    pub wordsize: usize,
    pub endian_little: bool,
    pub reverse_width: usize,
    pub set: Maskmap,
}

/// The mathematical content of a [`Fmt`].
pub struct FieldView {
    pub typ: FmtType,
    pub mask: Bitmask,
    pub ops: Seq<BitOp>,
}

/// The mathematical content of a named instruction.
pub struct LeafView {
    pub name: Seq<char>,
    pub fields: Seq<FieldView>,
}

/// The mathematical content of a [`Node`].
pub enum NodeView {
    Branch(TrieView),
    Leaf(LeafView),
}

/// The mathematical content of a [`Maskmap`].
pub struct TrieView {
    pub mask: Bitmask,
    pub children: Map<Wordt, NodeView>,
}

/// The mathematical content of an [`Instrset`].
pub struct InstrsetView {
    pub wordsize: nat,
    pub endian_little: bool,
    pub reverse_width: nat,
    pub set: TrieView,
}

impl View for Fmt {
    type V = FieldView;

    open spec fn view(&self) -> FieldView {
        FieldView { typ: self.typ, mask: self.mask, ops: self.ops@ }
    }
}

impl View for Instrfmt {
    type V = Seq<FieldView>;

    open spec fn view(&self) -> Seq<FieldView> {
        Seq::new(self.fmt@.len(), |i: int| self.fmt@[i]@)
    }
}

/// The content of a name together with its fields.
pub open spec fn leaf_view(leaf: (String, Instrfmt)) -> LeafView {
    LeafView { name: leaf.0@, fields: leaf.1@ }
}

impl Node {
    /// The content of the node.
    pub open spec fn view(&self) -> NodeView
        decreases self,
    {
        match self {
            Node::Branch(m) => NodeView::Branch(m.view()),
            Node::Instr(leaf) => NodeView::Leaf(leaf_view(*leaf)),
        }
    }
}

impl Maskmap {
    /// The content of the table: its mask, and the content of the node
    /// under each of its keys.
    pub open spec fn view(&self) -> TrieView
        decreases self,
    {
        TrieView {
            mask: self.mask,
            children: Map::new(
                |k: Wordt| self.map@.contains_key(k),
                |k: Wordt|
                    if self.map@.contains_key(k) {
                        self.map@[k].view()
                    } else {
                        arbitrary()
                    },
            ),
        }
    }
}

impl View for Instrset {
    type V = InstrsetView;

    open spec fn view(&self) -> InstrsetView {
        InstrsetView {
            wordsize: self.wordsize as nat,
            endian_little: self.endian_little,
            reverse_width: self.reverse_width as nat,
            set: self.set.view(),
        }
    }
}

/// The key under which a word is looked up in a table with `mask`: its bits
/// under the mask, gathered and spread out again.
pub open spec fn spec_key(w: Wordt, mask: Bitmask) -> Wordt {
    spec_align(spec_minimize(w as nat, mask as nat), mask as nat) as Wordt
}

/// The instruction that `w` selects in `trie`, if any: at each table the
/// word's key picks the child, until a leaf is met or no child is found.
/// Only a table with finitely many children can be searched.
pub open spec fn spec_get_fmt(w: Wordt, trie: TrieView) -> Option<LeafView>
    decreases trie,
    via spec_get_fmt_decreases
{
    let key = spec_key(w, trie.mask);
    if trie.children.dom().finite() && trie.children.contains_key(key) {
        match trie.children[key] {
            NodeView::Leaf(leaf) => Some(leaf),
            NodeView::Branch(sub) => spec_get_fmt(w, sub),
        }
    } else {
        None
    }
}

#[via_fn]
proof fn spec_get_fmt_decreases(w: Wordt, trie: TrieView) {
    let key = spec_key(w, trie.mask);
    if trie.children.dom().finite() && trie.children.contains_key(key) {
        vstd::map::axiom_map_index_decreases_finite(trie.children, key);
    }
}

/// The union of the masks of all tables consulted while looking up `w`.
pub open spec fn spec_masks_met(w: Wordt, trie: TrieView) -> Bitmask
    decreases trie,
    via spec_masks_met_decreases
{
    let key = spec_key(w, trie.mask);
    if trie.children.dom().finite() && trie.children.contains_key(key) {
        match trie.children[key] {
            NodeView::Leaf(leaf) => trie.mask,
            NodeView::Branch(sub) => trie.mask | spec_masks_met(w, sub),
        }
    } else {
        trie.mask
    }
}

#[via_fn]
proof fn spec_masks_met_decreases(w: Wordt, trie: TrieView) {
    let key = spec_key(w, trie.mask);
    if trie.children.dom().finite() && trie.children.contains_key(key) {
        vstd::map::axiom_map_index_decreases_finite(trie.children, key);
    }
}

/// Every field of the instruction selects at least one bit.
pub open spec fn wf_leaf(leaf: LeafView) -> bool {
    forall|i: int| 0 <= i < leaf.fields.len() ==> (#[trigger] leaf.fields[i]).mask != 0
}

/// The table and all tables below it are well formed: each mask selects at
/// least one bit, each key has no bit outside its table's mask, and every
/// instruction is well formed.
pub open spec fn wf_trie(trie: TrieView) -> bool
    decreases trie,
    via wf_trie_decreases
{
    &&& trie.mask != 0
    &&& trie.children.dom().finite()
    &&& forall|k: Wordt| #[trigger]
        trie.children.contains_key(k) ==> {
            &&& k & !trie.mask == 0
            &&& match trie.children[k] {
                NodeView::Leaf(leaf) => wf_leaf(leaf),
                NodeView::Branch(sub) => wf_trie(sub),
            }
        }
}

#[via_fn]
proof fn wf_trie_decreases(trie: TrieView) {
    assert forall|k: Wordt| #[trigger]
        trie.children.contains_key(k) && trie.children.dom().finite() implies decreases_to!(trie => trie.children[k]) by {
        vstd::map::axiom_map_index_decreases_finite(trie.children, k);
    }
}

/// The instruction set is well formed: its words are not empty and its
/// trie is well formed.
pub open spec fn wf_instrset(is: InstrsetView) -> bool {
    &&& is.wordsize > 0
    &&& wf_trie(is.set)
}

impl Instrset {
    /// The instruction set is well formed.
    pub open spec fn wf(&self) -> bool {
        wf_instrset(self@)
    }
}

/// Looks up the instruction that `w` selects in `set`, and adds to
/// `mask_total` the mask of every table consulted on the way.
pub fn get_fmt<'a>(w: Wordt, set: &'a Maskmap, mask_total: &mut Bitmask) -> (r: Option<
    &'a (String, Instrfmt),
>)
    ensures
        *final(mask_total) == *old(mask_total) | spec_masks_met(w, set.view()),
        match r {
            Some(leaf) => spec_get_fmt(w, set.view()) == Some(leaf_view(*leaf)),
            None => spec_get_fmt(w, set.view()) is None,
        },
{
    let mut cur = set;
    loop
        invariant
            spec_get_fmt(w, cur.view()) == spec_get_fmt(w, set.view()),
            *mask_total | spec_masks_met(w, cur.view()) == *old(mask_total) | spec_masks_met(
                w,
                set.view(),
            ),
        decreases *cur,
    {
        let key: Wordt = w & cur.mask;
        proof {
            lemma_align_of_minimize(w, cur.mask);
            assert(key == spec_key(w, cur.mask));
            assert(cur.view().children.dom() =~= cur.map@.dom());
            if cur.map@.contains_key(key) {
                if let Node::Branch(m) = cur.map@[key] {
                    lemma_or_assoc(*mask_total, cur.mask, spec_masks_met(w, m.view()));
                }
            }
        }
        *mask_total = *mask_total | cur.mask;
        match cur.map.get(&key) {
            None => {
                return None;
            },
            Some(n) => match n {
                Node::Instr(leaf) => {
                    return Some(leaf);
                },
                Node::Branch(m) => {
                    cur = m;
                },
            },
        }
    }
}

/// The value of field `f` in the word `w`: the bits under the field's mask,
/// gathered, with the field's operations applied in order.
pub open spec fn spec_field_value(w: Wordt, f: FieldView) -> Wordt {
    spec_apply_ops(spec_minimize(w as nat, f.mask as nat) as Wordt, f.ops)
}

/// The value of field `f` in `w` read as a signed number over as many bits
/// as the field's mask has.
pub open spec fn spec_field_signed(w: Wordt, f: FieldView) -> int {
    spec_twoscomp(spec_field_value(w, f) as nat, popcount(f.mask as nat))
}

/// The field is an upward branch whose distance reaches above the first
/// instruction, seen from the instruction at index `i`.
pub open spec fn spec_field_underflows(i: Wordt, w: Wordt, f: FieldView) -> bool {
    f.typ == FmtType::Ubranch && spec_field_value(w, f) > i
}

/// The instruction index that the branch field `f` of the word `w` at index
/// `i` points to. Sums that leave the range of a word wrap around.
pub open spec fn spec_branch_target(i: Wordt, w: Wordt, f: FieldView) -> Wordt {
    match f.typ {
        FmtType::Ubranch => (i - spec_field_value(w, f)) as Wordt,
        FmtType::Dbranch => spec_wrap(i + spec_field_value(w, f)),
        FmtType::Ibranch => spec_wrap(i + spec_field_signed(w, f)),
        _ => spec_field_value(w, f),
    }
}

/// The field is a branch whose label must be known before the instruction
/// at index `i` is reached: an upward branch, an absolute branch to an
/// earlier index, or a signed branch that does not go forward.
pub open spec fn spec_is_upward(i: Wordt, w: Wordt, f: FieldView) -> bool {
    match f.typ {
        FmtType::Ubranch => true,
        FmtType::Sbranch => spec_field_value(w, f) < i,
        FmtType::Ibranch => spec_field_signed(w, f) <= 0,
        _ => false,
    }
}

/// The field is a branch whose label is found while the listing is written:
/// a downward branch, an absolute branch to this or a later index, or a
/// signed branch that goes forward.
pub open spec fn spec_is_forward(i: Wordt, w: Wordt, f: FieldView) -> bool {
    match f.typ {
        FmtType::Dbranch => true,
        FmtType::Sbranch => spec_field_value(w, f) >= i,
        FmtType::Ibranch => spec_field_signed(w, f) > 0,
        _ => false,
    }
}

/// Some field of `fields` before position `upto` is an upward branch that
/// reaches above the first instruction.
pub open spec fn spec_fields_underflow(
    i: Wordt,
    w: Wordt,
    fields: Seq<FieldView>,
    upto: int,
) -> bool {
    exists|j: int| 0 <= j < upto && j < fields.len() && spec_field_underflows(i, w, #[trigger] fields[j])
}

/// The word `w` at index `i` cannot be decoded: no instruction matches it,
/// or one of its upward branches reaches above the first instruction.
pub open spec fn spec_instr_fails(i: Wordt, w: Wordt, trie: TrieView) -> bool {
    match spec_get_fmt(w, trie) {
        None => true,
        Some(leaf) => spec_fields_underflow(i, w, leaf.fields, leaf.fields.len() as int),
    }
}

/// Extracts the value of field `f` from `w`, together with the number of
/// bits of the field's mask.
pub fn field_value(w: Wordt, f: &Fmt) -> (r: (Wordt, Wordt))
    ensures
        r.0 == spec_field_value(w, f@),
        r.1 == popcount(f.mask as nat),
        r.1 <= 64,
{
    let gathered = minimize(w, f.mask);
    let mut v: Wordt = gathered.0;
    apply_bit_ops(&f.ops, &mut v);
    (v, gathered.1)
}

/// Computes where the branch field `f` of the word `w` at index `i` points.
pub(crate) fn branch_target(i: Wordt, w: Wordt, f: &Fmt) -> (r: Wordt)
    requires
        !spec_field_underflows(i, w, f@),
    ensures
        r == spec_branch_target(i, w, f@),
{
    let fv = field_value(w, f);
    match f.typ {
        FmtType::Ubranch => i - fv.0,
        FmtType::Dbranch => i.wrapping_add(fv.0),
        FmtType::Ibranch => i.wrapping_add_signed(twoscomp(fv)),
        _ => fv.0,
    }
}

/// Tells whether some field of `fmt` is an upward branch that reaches above
/// the first instruction.
pub fn fields_underflow(i: Wordt, w: Wordt, fmt: &Instrfmt) -> (r: bool)
    ensures
        r == spec_fields_underflow(i, w, fmt@, fmt@.len() as int),
{
    let mut j: usize = 0;
    while j < fmt.fmt.len()
        invariant
            j <= fmt.fmt.len(),
            fmt@.len() == fmt.fmt.len(),
            !spec_fields_underflow(i, w, fmt@, j as int),
        decreases fmt.fmt.len() - j,
    {
        let f = &fmt.fmt[j];
        proof {
            assert(fmt@[j as int] == f@);
        }
        match f.typ {
            FmtType::Ubranch => {
                let fv = field_value(w, f);
                if fv.0 > i {
                    return true;
                }
            },
            _ => {},
        }
        j = j + 1;
    }
    false
}

/// A leaf declared directly in a table under the opcode `literal` is found
/// by every word whose bits under the table's mask, gathered, are that
/// literal.
pub proof fn lemma_declared_leaf_is_found(
    trie: TrieView,
    literal: Wordt,
    leaf: LeafView,
    w: Wordt,
)
    requires
        trie.children.dom().finite(),
        trie.children.contains_key(spec_align(literal as nat, trie.mask as nat) as Wordt),
        trie.children[spec_align(literal as nat, trie.mask as nat) as Wordt] == NodeView::Leaf(
            leaf,
        ),
        spec_minimize(w as nat, trie.mask as nat) == literal,
    ensures
        spec_get_fmt(w, trie) == Some(leaf),
{
}

/// `leaf` is declared in `trie` under the opcode literals of `path`, one
/// for each table from the root down.
pub open spec fn spec_declares(trie: TrieView, path: Seq<Wordt>, leaf: LeafView) -> bool
    decreases path.len(),
{
    let key = spec_align(path[0] as nat, trie.mask as nat) as Wordt;
    &&& path.len() > 0
    &&& trie.children.dom().finite()
    &&& trie.children.contains_key(key)
    &&& match trie.children[key] {
        NodeView::Leaf(l) => path.len() == 1 && l == leaf,
        NodeView::Branch(sub) => spec_declares(sub, path.drop_first(), leaf),
    }
}

/// The masks of the tables passed on the way down `path`, root first.
pub open spec fn spec_path_masks(trie: TrieView, path: Seq<Wordt>) -> Seq<Bitmask>
    decreases path.len(),
{
    let key = spec_align(path[0] as nat, trie.mask as nat) as Wordt;
    if path.len() == 0 {
        Seq::empty()
    } else if trie.children.contains_key(key) && trie.children[key] is Branch {
        seq![trie.mask] + spec_path_masks(trie.children[key]->Branch_0, path.drop_first())
    } else {
        seq![trie.mask]
    }
}

/// A leaf declared at any depth is found by every word that shows, under
/// the mask of each table on the way, the opcode literal declared there.
pub proof fn lemma_declared_path_is_found(
    trie: TrieView,
    path: Seq<Wordt>,
    leaf: LeafView,
    w: Wordt,
)
    requires
        spec_declares(trie, path, leaf),
        forall|i: int|
            0 <= i < path.len() ==> spec_minimize(
                w as nat,
                #[trigger] spec_path_masks(trie, path)[i] as nat,
            ) == path[i],
    ensures
        spec_path_masks(trie, path).len() == path.len(),
        spec_get_fmt(w, trie) == Some(leaf),
    decreases path.len(),
{
    let key = spec_align(path[0] as nat, trie.mask as nat) as Wordt;
    let masks = spec_path_masks(trie, path);
    assert(masks[0] == trie.mask);
    match trie.children[key] {
        NodeView::Leaf(l) => {},
        NodeView::Branch(sub) => {
            let rest = path.drop_first();
            let below = spec_path_masks(sub, rest);
            lemma_path_masks_len(sub, rest, leaf);
            assert forall|i: int| 0 <= i < rest.len() implies spec_minimize(
                w as nat,
                #[trigger] below[i] as nat,
            ) == rest[i] by {
                assert(masks[i + 1] == below[i]);
                assert(path[i + 1] == rest[i]);
            }
            lemma_declared_path_is_found(sub, rest, leaf, w);
        },
    }
}

proof fn lemma_path_masks_len(trie: TrieView, path: Seq<Wordt>, leaf: LeafView)
    requires
        spec_declares(trie, path, leaf),
    ensures
        spec_path_masks(trie, path).len() == path.len(),
    decreases path.len(),
{
    let key = spec_align(path[0] as nat, trie.mask as nat) as Wordt;
    match trie.children[key] {
        NodeView::Leaf(l) => {},
        NodeView::Branch(sub) => {
            lemma_path_masks_len(sub, path.drop_first(), leaf);
        },
    }
}

} // verus!
