//! Byte-offset selections over a string, carried by a character-wise edit.
use vstd::prelude::*;
use crate::charwise::{Prim, src_len, tgt_len, apply_bytes, compose_ops, transform_ops};
use crate::charwise::Operation as BaseOperation;
use crate::charwise::PrimitiveOperation;
use crate::text::{bytes_of, text_of};
use crate::charwise::canonical;
use crate::charwise_laws::{lemma_compose_apply_text, lemma_transform_converges_text};
use crate::Operation as OperationTrait;
use vstd::utf8::valid_utf8;

verus! {

/// `a + b`, or `usize::MAX` where that does not fit.
pub open spec fn sat_add(a: nat, b: nat) -> nat {
    if a + b <= usize::MAX {
        a + b
    } else {
        usize::MAX as nat
    }
}

/// Where the offset `v` ends up after the steps `ops`, read from the result
/// offset `idx`: an insertion at or before it pushes it forward, a deletion
/// before it pulls it back, by as much of the deletion as lies before it.
pub open spec fn shift_index(ops: Seq<Prim>, idx: nat, v: nat) -> nat
    decreases ops.len(),
{
    if ops.len() == 0 {
        v
    } else {
        match ops[0] {
            Prim::Retain(n) => shift_index(ops.drop_first(), idx + n, v),
            Prim::Insert(t) => if idx <= v {
                shift_index(ops.drop_first(), idx + t.len(), sat_add(v, t.len()))
            } else {
                shift_index(ops.drop_first(), idx + t.len(), v)
            },
            Prim::Delete(n) => if idx <= v {
                shift_index(ops.drop_first(), idx, (v - if n < v - idx { n } else { (v - idx) as nat }) as nat)
            } else {
                shift_index(ops.drop_first(), idx, v)
            },
        }
    }
}

/// A cursor, or a range of bytes with `start < end`.
#[derive(Clone, Copy, Debug, PartialEq, Eq, Structural)]
pub enum Selection {
    Cursor(usize),
    Range(usize, usize),
}

/// A selection moved through the steps `ops`; a range whose ends meet is dropped.
pub open spec fn shift_selection(s: Selection, ops: Seq<Prim>) -> Option<Selection> {
    match s {
        Selection::Cursor(p) => Some(Selection::Cursor(shift_index(ops, 0, p as nat) as usize)),
        Selection::Range(a, b) => {
            let a2 = shift_index(ops, 0, a as nat);
            let b2 = shift_index(ops, 0, b as nat);
            if a2 == b2 {
                None
            } else {
                Some(Selection::Range(a2 as usize, b2 as usize))
            }
        },
    }
}

/// Every selection of a list moved through `ops`, the dropped ones left out.
pub open spec fn shift_selections(ss: Seq<Selection>, ops: Seq<Prim>) -> Seq<Selection>
    decreases ss.len(),
{
    if ss.len() == 0 {
        Seq::empty()
    } else {
        let init = shift_selections(ss.drop_last(), ops);
        match shift_selection(ss.last(), ops) {
            Some(s) => init.push(s),
            None => init,
        }
    }
}

pub proof fn lemma_shift_index_bound(ops: Seq<Prim>, idx: nat, v: nat)
    requires
        idx <= v <= idx + src_len(ops),
        idx + tgt_len(ops) <= usize::MAX,
    ensures
        idx <= shift_index(ops, idx, v) <= idx + tgt_len(ops),
    decreases ops.len(),
{
    if ops.len() > 0 {
        let rest = ops.drop_first();
        match ops[0] {
            Prim::Retain(n) => {
                if v < idx + n {
                    lemma_shift_index_below(rest, idx + n, v);
                } else {
                    lemma_shift_index_bound(rest, idx + n, v);
                }
            },
            Prim::Insert(t) => {
                lemma_shift_index_bound(rest, idx + t.len(), sat_add(v, t.len()));
            },
            Prim::Delete(n) => {
                let v2 = (v - if n < v - idx { n } else { (v - idx) as nat }) as nat;
                lemma_shift_index_bound(rest, idx, v2);
            },
        }
    }
}

proof fn lemma_shift_index_below(ops: Seq<Prim>, idx: nat, v: nat)
    requires
        v < idx,
    ensures
        shift_index(ops, idx, v) == v,
    decreases ops.len(),
{
    if ops.len() > 0 {
        let rest = ops.drop_first();
        match ops[0] {
            Prim::Retain(n) => lemma_shift_index_below(rest, idx + n, v),
            Prim::Insert(t) => lemma_shift_index_below(rest, idx + t.len(), v),
            Prim::Delete(n) => lemma_shift_index_below(rest, idx, v),
        }
    }
}

/// A byte offset of the source of an operation lands on a byte offset of its
/// result.
pub proof fn lemma_index_stays_in_range(ops: Seq<Prim>, v: nat)
    requires
        v <= src_len(ops),
        tgt_len(ops) <= usize::MAX,
    ensures
        shift_index(ops, 0, v) <= tgt_len(ops),
{
    lemma_shift_index_bound(ops, 0, v);
}

impl Selection {
    /// Moves the offset `value` through `op`.
    pub fn transform_index(value: &mut usize, op: &BaseOperation)
        requires
            op.well_formed(),
        ensures
            *final(value) as nat == shift_index(op@, 0, *old(value) as nat),
    {
        let ghost ops = op@;
        let ops_v = op.operations_ref();
        let total = op.target_len();
        let mut idx: usize = 0;
        let mut k: usize = 0;
        proof {
            assert(ops.skip(0) =~= ops);
        }
        while k < ops_v.len()
            invariant
                op.well_formed(),
                ops == op@,
                crate::charwise::view_prims(ops_v@) == ops,
                k <= ops_v@.len(),
                idx + tgt_len(ops.skip(k as int)) == tgt_len(ops),
                tgt_len(ops) == op.tgt(),
                op.tgt() == total,
                shift_index(ops.skip(k as int), idx as nat, *value as nat) == shift_index(ops, 0, *old(value) as nat),
            decreases ops_v@.len() - k,
        {
            proof {
                assert(ops.skip(k as int)[0] == ops_v@[k as int]@);
                assert(ops.skip(k as int).drop_first() =~= ops.skip(k + 1));
            }
            match &ops_v[k] {
                PrimitiveOperation::Retain(len) => {
                    idx = idx + *len;
                },
                PrimitiveOperation::Insert(s) => {
                    let l = s.len();
                    if idx <= *value {
                        if *value <= usize::MAX - l {
                            *value = *value + l;
                        } else {
                            *value = usize::MAX;
                        }
                    }
                    idx = idx + l;
                },
                PrimitiveOperation::Delete(len) => {
                    if idx <= *value {
                        let d = *value - idx;
                        let m = if *len < d { *len } else { d };
                        *value = *value - m;
                    }
                },
            }
            k = k + 1;
        }
    }

    /// This selection moved through `op`; `None` where a range closes up.
    pub fn transform(self, op: &BaseOperation) -> (r: Option<Selection>)
        requires
            op.well_formed(),
        ensures
            r == shift_selection(self, op@),
    {
        match self {
            Selection::Cursor(p) => {
                let mut p = p;
                Selection::transform_index(&mut p, op);
                Some(Selection::Cursor(p))
            },
            Selection::Range(a, b) => {
                let mut a = a;
                let mut b = b;
                Selection::transform_index(&mut a, op);
                Selection::transform_index(&mut b, op);
                if a == b {
                    None
                } else {
                    Some(Selection::Range(a, b))
                }
            },
        }
    }
}

/// Every selection of `ss` moved through `op`, the dropped ones left out.
pub fn transform_selections(ss: &Vec<Selection>, op: &BaseOperation) -> (r: Vec<Selection>)
    requires
        op.well_formed(),
    ensures
        r@ == shift_selections(ss@, op@),
{
    let mut r: Vec<Selection> = Vec::new();
    let mut i: usize = 0;
    while i < ss.len()
        invariant
            op.well_formed(),
            i <= ss@.len(),
            r@ == shift_selections(ss@.take(i as int), op@),
        decreases ss@.len() - i,
    {
        let t = ss[i].transform(op);
        proof {
            assert(ss@.take(i + 1).drop_last() =~= ss@.take(i as int));
        }
        match t {
            Some(s) => r.push(s),
            None => {},
        }
        i = i + 1;
    }
    assert(ss@.take(i as int) =~= ss@);
    r
}


/// A copy of a list of selections.
pub fn copy_selections(ss: &Vec<Selection>) -> (r: Vec<Selection>)
    ensures
        r@ == ss@,
{
    let mut r: Vec<Selection> = Vec::new();
    let mut i: usize = 0;
    while i < ss.len()
        invariant
            i <= ss@.len(),
            r@ == ss@.take(i as int),
        decreases ss@.len() - i,
    {
        r.push(ss[i]);
        i = i + 1;
        assert(r@ =~= ss@.take(i as int));
    }
    assert(ss@.take(i as int) =~= ss@);
    r
}

/// A string with the selections on it.
#[derive(Clone, Debug, PartialEq, Eq)]
pub struct Target {
    pub base: String,
    pub selection: Vec<Selection>,
}

/// An edit that carries selections: `Nop` changes nothing, `Op(s, op)` applies
/// `op` to the string and puts the selections `s` in place of the old ones.
#[derive(Clone, Debug)]
pub enum Operation {
    Nop,
    Op(Vec<Selection>, BaseOperation),
}

/// An edit with selections, as the proofs see it.
pub enum SelModel {
    Nop,
    Op(Seq<Selection>, Seq<Prim>),
}

impl View for Operation {
    type V = SelModel;

    open spec fn view(&self) -> SelModel {
        match self {
            Operation::Nop => SelModel::Nop,
            Operation::Op(s, b) => SelModel::Op(s@, b@),
        }
    }
}

impl Target {
    /// The edit `op` of this string, with its selections moved through it.
    pub fn operate(&self, op: BaseOperation) -> (r: Operation)
        requires
            op.well_formed(),
        ensures
            r@ == SelModel::Op(shift_selections(self.selection@, op@), op@),
    {
        let s = transform_selections(&self.selection, &op);
        Operation::Op(s, op)
    }
}

/// Both selection lists moved past the other side's edit: the left ones
/// through `b2`, the right ones through `a2`, the left ones first.
pub open spec fn merged_selections(sl: Seq<Selection>, sr: Seq<Selection>, a2: Seq<Prim>, b2: Seq<Prim>) -> Seq<Selection> {
    shift_selections(sl, b2) + shift_selections(sr, a2)
}

impl crate::Operation for Operation {
    type Target = Target;

    type Model = SelModel;

    type Content = (Seq<char>, Seq<Selection>);

    open spec fn op_model(&self) -> SelModel {
        self@
    }

    open spec fn target_model(t: &Target) -> (Seq<char>, Seq<Selection>) {
        (t.base@, t.selection@)
    }

    open spec fn op_valid(&self) -> bool {
        match self {
            Operation::Nop => true,
            Operation::Op(_, b) => b.well_formed(),
        }
    }

    open spec fn fits(op: SelModel, c: (Seq<char>, Seq<Selection>)) -> bool {
        match op {
            SelModel::Nop => true,
            SelModel::Op(_, b) => bytes_of(c.0).len() == src_len(b) && valid_utf8(apply_bytes(b, bytes_of(c.0))),
        }
    }

    open spec fn composable(a: SelModel, b: SelModel) -> bool {
        match (a, b) {
            (SelModel::Op(_, x), SelModel::Op(_, y)) => tgt_len(x) == src_len(y),
            _ => true,
        }
    }

    open spec fn transformable(a: SelModel, b: SelModel) -> bool {
        match (a, b) {
            (SelModel::Op(_, x), SelModel::Op(_, y)) => src_len(x) == src_len(y) && tgt_len(x) + tgt_len(y)
                <= usize::MAX,
            _ => true,
        }
    }

    open spec fn apply_model(op: SelModel, c: (Seq<char>, Seq<Selection>)) -> (Seq<char>, Seq<Selection>) {
        match op {
            SelModel::Nop => c,
            SelModel::Op(s, b) => (text_of(apply_bytes(b, bytes_of(c.0))), s),
        }
    }

    open spec fn compose_model(a: SelModel, b: SelModel) -> SelModel {
        match (a, b) {
            (SelModel::Nop, _) => b,
            (_, SelModel::Nop) => a,
            (SelModel::Op(_, x), SelModel::Op(s, y)) => SelModel::Op(s, compose_ops(x, y)),
        }
    }

    open spec fn transform_model(a: SelModel, b: SelModel) -> (SelModel, SelModel) {
        match (a, b) {
            (SelModel::Nop, _) => (a, b),
            (_, SelModel::Nop) => (a, b),
            (SelModel::Op(sl, x), SelModel::Op(sr, y)) => {
                let (x2, y2) = transform_ops(x, y);
                let s = merged_selections(sl, sr, x2, y2);
                (SelModel::Op(s, x2), SelModel::Op(s, y2))
            },
        }
    }

    open spec fn nop_model(c: (Seq<char>, Seq<Selection>)) -> SelModel {
        SelModel::Nop
    }

    open spec fn empty_model() -> SelModel {
        SelModel::Nop
    }

    open spec fn empty_content() -> (Seq<char>, Seq<Selection>) {
        (Seq::empty(), Seq::empty())
    }

    fn empty() -> (r: Self) {
        Operation::Nop
    }

    fn empty_target() -> (r: Target) {
        Target { base: String::new(), selection: Vec::new() }
    }

    fn copy_op(&self) -> (r: Self) {
        match self {
            Operation::Nop => Operation::Nop,
            Operation::Op(s, b) => Operation::Op(copy_selections(s), b.copy()),
        }
    }

    fn copy_target(t: &Target) -> (r: Target) {
        Target { base: t.base.clone(), selection: copy_selections(&t.selection) }
    }

    fn nop(target: &Target) -> (r: Self) {
        Operation::Nop
    }

    fn fits_target(&self, target: &Target) -> (r: bool) {
        match self {
            Operation::Nop => true,
            Operation::Op(_, b) => crate::Operation::fits_target(b, &target.base),
        }
    }

    fn composes_with(&self, other: &Self) -> (r: bool) {
        match (self, other) {
            (Operation::Op(_, x), Operation::Op(_, y)) => x.target_len() == y.source_len(),
            _ => true,
        }
    }

    fn transforms_with(&self, other: &Self) -> (r: bool) {
        match (self, other) {
            (Operation::Op(_, x), Operation::Op(_, y)) => x.source_len() == y.source_len() && x.target_len()
                <= usize::MAX - y.target_len(),
            _ => true,
        }
    }

    fn apply(&self, target: &Target) -> (r: Target) {
        match self {
            Operation::Nop => Target { base: target.base.clone(), selection: copy_selections(&target.selection) },
            Operation::Op(s, b) => Target { base: b.apply(&target.base), selection: copy_selections(s) },
        }
    }

    fn compose(self, other: Self) -> (r: Self) {
        match (self, other) {
            (Operation::Nop, o) => o,
            (t, Operation::Nop) => t,
            (Operation::Op(_, x), Operation::Op(s, y)) => Operation::Op(s, x.compose(y)),
        }
    }

    fn transform(self, other: Self) -> (r: (Self, Self)) {
        match (self, other) {
            (Operation::Nop, o) => (Operation::Nop, o),
            (t, Operation::Nop) => (t, Operation::Nop),
            (Operation::Op(sl, x), Operation::Op(sr, y)) => {
                let (x2, y2) = x.transform(y);
                let mut s = transform_selections(&sl, &y2);
                let mut s2 = transform_selections(&sr, &x2);
                s.append(&mut s2);
                let c = copy_selections(&s);
                (Operation::Op(c, x2), Operation::Op(s, y2))
            },
        }
    }
}


/// The bytes that the edit of `op`, if any, makes of the string `c`.
pub open spec fn edited_bytes(op: SelModel, c: Seq<char>) -> Seq<u8> {
    match op {
        SelModel::Nop => bytes_of(c),
        SelModel::Op(_, b) => apply_bytes(b, bytes_of(c)),
    }
}

/// Composition is sequencing for edits with selections, where the string
/// after the first edit is valid UTF-8.
pub proof fn lemma_sel_compose_apply(a: SelModel, b: SelModel, c: (Seq<char>, Seq<Selection>))
    requires
        Operation::fits(a, c),
        Operation::composable(a, b),
        valid_utf8(edited_bytes(a, c.0)),
    ensures
        Operation::apply_model(Operation::compose_model(a, b), c) == Operation::apply_model(
            b,
            Operation::apply_model(a, c),
        ),
{
    match (a, b) {
        (SelModel::Op(_, x), SelModel::Op(_, y)) => {
            lemma_compose_apply_text(x, y, c.0);
        },
        _ => {},
    }
}

/// Transformation converges for edits with selections: both orders reach the
/// same string and the same selections, where the strings after `a` and
/// after `b` are valid UTF-8.
pub proof fn lemma_sel_transform_converges(a: SelModel, b: SelModel, c: (Seq<char>, Seq<Selection>))
    requires
        Operation::fits(a, c),
        Operation::fits(b, c),
        Operation::transformable(a, b),
        a matches SelModel::Op(_, x) ==> canonical(x),
        b matches SelModel::Op(_, y) ==> canonical(y),
        valid_utf8(edited_bytes(a, c.0)),
        valid_utf8(edited_bytes(b, c.0)),
    ensures
        Operation::apply_model(Operation::transform_model(a, b).1, Operation::apply_model(a, c))
            == Operation::apply_model(Operation::transform_model(a, b).0, Operation::apply_model(b, c)),
{
    match (a, b) {
        (SelModel::Op(_, x), SelModel::Op(_, y)) => {
            lemma_transform_converges_text(x, y, c.0);
        },
        _ => {},
    }
}


pub proof fn lemma_shift_index_monotone(ops: Seq<Prim>, idx: nat, v1: nat, v2: nat)
    requires
        v1 <= v2 <= usize::MAX,
    ensures
        shift_index(ops, idx, v1) <= shift_index(ops, idx, v2),
    decreases ops.len(),
{
    if ops.len() > 0 {
        let rest = ops.drop_first();
        match ops[0] {
            Prim::Retain(n) => lemma_shift_index_monotone(rest, idx + n, v1, v2),
            Prim::Insert(t) => {
                let w1 = if idx <= v1 { sat_add(v1, t.len()) } else { v1 };
                let w2 = if idx <= v2 { sat_add(v2, t.len()) } else { v2 };
                lemma_shift_index_monotone(rest, idx + t.len(), w1, w2);
            },
            Prim::Delete(n) => {
                let w1 = if idx <= v1 { (v1 - if n < v1 - idx { n } else { (v1 - idx) as nat }) as nat } else { v1 };
                let w2 = if idx <= v2 { (v2 - if n < v2 - idx { n } else { (v2 - idx) as nat }) as nat } else { v2 };
                lemma_shift_index_monotone(rest, idx, w1, w2);
            },
        }
    }
}

/// Moving keeps the order of offsets, so a range comes out with its start at
/// or before its end, and is dropped where the two meet.
pub proof fn lemma_range_keeps_order(ops: Seq<Prim>, a: usize, b: usize)
    requires
        a < b,
    ensures
        shift_index(ops, 0, a as nat) <= shift_index(ops, 0, b as nat),
        shift_selection(Selection::Range(a, b), ops) is None || (shift_selection(Selection::Range(a, b), ops) matches Some(Selection::Range(x, y)) && x < y),
{
    lemma_shift_index_monotone(ops, 0, a as nat, b as nat);
    lemma_shift_index_le_max(ops, 0, a as nat);
    lemma_shift_index_le_max(ops, 0, b as nat);
}

pub proof fn lemma_shift_index_le_max(ops: Seq<Prim>, idx: nat, v: nat)
    requires
        v <= usize::MAX,
    ensures
        shift_index(ops, idx, v) <= usize::MAX,
    decreases ops.len(),
{
    if ops.len() > 0 {
        let rest = ops.drop_first();
        match ops[0] {
            Prim::Retain(n) => lemma_shift_index_le_max(rest, idx + n, v),
            Prim::Insert(t) => {
                let w = if idx <= v { sat_add(v, t.len()) } else { v };
                lemma_shift_index_le_max(rest, idx + t.len(), w);
            },
            Prim::Delete(n) => {
                let w = if idx <= v { (v - if n < v - idx { n } else { (v - idx) as nat }) as nat } else { v };
                lemma_shift_index_le_max(rest, idx, w);
            },
        }
    }
}

} // verus!
