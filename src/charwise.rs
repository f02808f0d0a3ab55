//! Byte-indexed operations on a string: runs of retained, inserted and
//! deleted bytes.
use vstd::prelude::*;
use crate::text::{bytes_of, text_of, lemma_text_of_bytes, lemma_bytes_of_text, string_bytes, string_from_bytes, byte_len, is_utf8};
use vstd::utf8::valid_utf8;

verus! {

/// One step of an operation, as the proofs see it.
pub enum Prim {
    Retain(nat),
    Insert(Seq<u8>),
    Delete(nat),
}

/// Bytes of the source that a step reads.
pub open spec fn prim_src(p: Prim) -> nat {
    match p {
        Prim::Retain(n) => n,
        Prim::Insert(_) => 0,
        Prim::Delete(n) => n,
    }
}

/// Bytes of the result that a step writes.
pub open spec fn prim_tgt(p: Prim) -> nat {
    match p {
        Prim::Retain(n) => n,
        Prim::Insert(s) => s.len(),
        Prim::Delete(_) => 0,
    }
}

/// A step that neither reads nor writes anything.
pub open spec fn prim_empty(p: Prim) -> bool {
    match p {
        Prim::Retain(n) => n == 0,
        Prim::Insert(s) => s.len() == 0,
        Prim::Delete(n) => n == 0,
    }
}

pub open spec fn same_kind(p: Prim, q: Prim) -> bool {
    match (p, q) {
        (Prim::Retain(_), Prim::Retain(_)) => true,
        (Prim::Insert(_), Prim::Insert(_)) => true,
        (Prim::Delete(_), Prim::Delete(_)) => true,
        _ => false,
    }
}

/// Two steps of the same kind fused into one.
pub open spec fn merge(p: Prim, q: Prim) -> Prim {
    match (p, q) {
        (Prim::Retain(a), Prim::Retain(b)) => Prim::Retain(a + b),
        (Prim::Insert(a), Prim::Insert(b)) => Prim::Insert(a + b),
        (Prim::Delete(a), Prim::Delete(b)) => Prim::Delete(a + b),
        _ => p,
    }
}

pub open spec fn src_len(ops: Seq<Prim>) -> nat
    decreases ops.len(),
{
    if ops.len() == 0 {
        0
    } else {
        prim_src(ops[0]) + src_len(ops.drop_first())
    }
}

pub open spec fn tgt_len(ops: Seq<Prim>) -> nat
    decreases ops.len(),
{
    if ops.len() == 0 {
        0
    } else {
        prim_tgt(ops[0]) + tgt_len(ops.drop_first())
    }
}

/// No empty step, and no two neighbouring steps of the same kind.
pub open spec fn canonical(ops: Seq<Prim>) -> bool {
    &&& forall|i: int| 0 <= i < ops.len() ==> !prim_empty(#[trigger] ops[i])
    &&& forall|i: int| 0 <= i < ops.len() - 1 ==> !same_kind(#[trigger] ops[i], ops[i + 1])
}

/// Appending a step the way the builder does: an empty step is dropped, a step
/// of the same kind as the last one is fused with it.
pub open spec fn push_prim(ops: Seq<Prim>, p: Prim) -> Seq<Prim> {
    if prim_empty(p) {
        ops
    } else if ops.len() > 0 && same_kind(ops.last(), p) {
        ops.drop_last().push(merge(ops.last(), p))
    } else {
        ops.push(p)
    }
}

/// The bytes that an operation makes of the bytes `s`.
pub open spec fn apply_bytes(ops: Seq<Prim>, s: Seq<u8>) -> Seq<u8>
    decreases ops.len(),
{
    if ops.len() == 0 {
        Seq::empty()
    } else {
        match ops[0] {
            Prim::Retain(n) => s.take(n as int) + apply_bytes(ops.drop_first(), s.skip(n as int)),
            Prim::Insert(t) => t + apply_bytes(ops.drop_first(), s),
            Prim::Delete(n) => apply_bytes(ops.drop_first(), s.skip(n as int)),
        }
    }
}

pub proof fn lemma_len_push(ops: Seq<Prim>, p: Prim)
    ensures
        src_len(ops.push(p)) == src_len(ops) + prim_src(p),
        tgt_len(ops.push(p)) == tgt_len(ops) + prim_tgt(p),
    decreases ops.len(),
{
    if ops.len() == 0 {
        assert(ops.push(p).drop_first() =~= Seq::<Prim>::empty());
        assert(src_len(Seq::<Prim>::empty()) == 0);
        assert(tgt_len(Seq::<Prim>::empty()) == 0);
    } else {
        lemma_len_push(ops.drop_first(), p);
        assert(ops.push(p).drop_first() =~= ops.drop_first().push(p));
        assert(ops.push(p)[0] == ops[0]);
    }
}

pub proof fn lemma_len_push_prim(ops: Seq<Prim>, p: Prim)
    ensures
        src_len(push_prim(ops, p)) == src_len(ops) + prim_src(p),
        tgt_len(push_prim(ops, p)) == tgt_len(ops) + prim_tgt(p),
{
    if prim_empty(p) {
    } else if ops.len() > 0 && same_kind(ops.last(), p) {
        let init = ops.drop_last();
        assert(ops =~= init.push(ops.last()));
        lemma_len_push(init, ops.last());
        lemma_len_push(init, merge(ops.last(), p));
    } else {
        lemma_len_push(ops, p);
    }
}

pub proof fn lemma_canonical_push_prim(ops: Seq<Prim>, p: Prim)
    requires
        canonical(ops),
    ensures
        canonical(push_prim(ops, p)),
{
    let r = push_prim(ops, p);
    if prim_empty(p) {
    } else if ops.len() > 0 && same_kind(ops.last(), p) {
        assert forall|i: int| 0 <= i < r.len() - 1 implies !same_kind(#[trigger] r[i], r[i + 1]) by {
            assert(r[i] == ops[i]);
            if i + 1 < r.len() - 1 {
                assert(r[i + 1] == ops[i + 1]);
            } else {
                assert(same_kind(r[i + 1], ops[i + 1]));
            }
        }
    } else {
        assert forall|i: int| 0 <= i < r.len() - 1 implies !same_kind(#[trigger] r[i], r[i + 1]) by {
            assert(r[i] == ops[i]);
        }
    }
}

/// Applying an operation to a source of its length gives a result of its
/// target length.
pub proof fn lemma_apply_len(ops: Seq<Prim>, s: Seq<u8>)
    requires
        s.len() == src_len(ops),
    ensures
        apply_bytes(ops, s).len() == tgt_len(ops),
    decreases ops.len(),
{
    if ops.len() > 0 {
        match ops[0] {
            Prim::Retain(n) => lemma_apply_len(ops.drop_first(), s.skip(n as int)),
            Prim::Insert(t) => lemma_apply_len(ops.drop_first(), s),
            Prim::Delete(n) => lemma_apply_len(ops.drop_first(), s.skip(n as int)),
        }
    }
}

/// The identity operation on a string of `n` bytes.
pub open spec fn nop_ops(n: nat) -> Seq<Prim> {
    push_prim(Seq::empty(), Prim::Retain(n))
}

/// The identity operation leaves a string as it is.
pub proof fn lemma_nop_apply(t: Seq<char>)
    ensures
        text_of(apply_bytes(nop_ops(bytes_of(t).len()), bytes_of(t))) == t,
{
    let b = bytes_of(t);
    let ops = nop_ops(b.len());
    if b.len() > 0 {
        assert(ops.drop_first() =~= Seq::<Prim>::empty());
        assert(b.take(b.len() as int) =~= b);
        assert(ops[0] == Prim::Retain(b.len()));
        assert(apply_bytes(ops.drop_first(), b.skip(b.len() as int)) =~= Seq::<u8>::empty());
        assert(apply_bytes(ops, b) =~= b);
    } else {
        assert(apply_bytes(ops, b) =~= b);
    }
    lemma_text_of_bytes(t);
}

/// One step of an operation.
#[derive(Clone, Debug)]
pub enum PrimitiveOperation {
    /// Keep the next `n` bytes.
    Retain(usize),
    /// Write these bytes.
    Insert(Vec<u8>),
    /// Drop the next `n` bytes.
    Delete(usize),
}

impl View for PrimitiveOperation {
    type V = Prim;

    open spec fn view(&self) -> Prim {
        match self {
            PrimitiveOperation::Retain(n) => Prim::Retain(*n as nat),
            PrimitiveOperation::Insert(s) => Prim::Insert(s@),
            PrimitiveOperation::Delete(n) => Prim::Delete(*n as nat),
        }
    }
}

impl PrimitiveOperation {
    pub fn copy(&self) -> (r: PrimitiveOperation)
        ensures
            r@ == self@,
    {
        match self {
            PrimitiveOperation::Retain(n) => PrimitiveOperation::Retain(*n),
            PrimitiveOperation::Insert(s) => {
                let c = s.clone();
                assert(c@ =~= s@);
                PrimitiveOperation::Insert(c)
            },
            PrimitiveOperation::Delete(n) => PrimitiveOperation::Delete(*n),
        }
    }
}

pub open spec fn view_prims(v: Seq<PrimitiveOperation>) -> Seq<Prim> {
    v.map_values(|p: PrimitiveOperation| p@)
}

/// A character-wise operation: a run of steps over the bytes of a string,
/// with the byte lengths of its source and of its result.
#[derive(Clone, Debug)]
pub struct Operation {
    pub(crate) operations: Vec<PrimitiveOperation>,
    source_len: usize,
    target_len: usize,
}

impl View for Operation {
    type V = Seq<Prim>;

    closed spec fn view(&self) -> Seq<Prim> {
        view_prims(self.operations@)
    }
}


/// Composition as the merge of two step streams, appended to `acc`: the steps
/// of `a` are read against those of `b`, a deletion of `a` and an insertion of
/// `b` pass through, and two overlapping steps are cut to the shorter one.
pub open spec fn compose_from(acc: Seq<Prim>, a: Seq<Prim>, b: Seq<Prim>) -> Seq<Prim>
    decreases a.len() + b.len(),
{
    if a.len() == 0 && b.len() == 0 {
        acc
    } else if a.len() == 0 {
        compose_from(push_prim(acc, b[0]), a, b.drop_first())
    } else if b.len() == 0 {
        compose_from(push_prim(acc, a[0]), a.drop_first(), b)
    } else {
        match (a[0], b[0]) {
            (Prim::Delete(n), _) => compose_from(push_prim(acc, Prim::Delete(n)), a.drop_first(), b),
            (_, Prim::Insert(t)) => compose_from(push_prim(acc, Prim::Insert(t)), a, b.drop_first()),
            (Prim::Retain(x), Prim::Retain(y)) => if x < y {
                compose_from(
                    push_prim(acc, Prim::Retain(x)),
                    a.drop_first(),
                    b.update(0, Prim::Retain((y - x) as nat)),
                )
            } else if x == y {
                compose_from(push_prim(acc, Prim::Retain(x)), a.drop_first(), b.drop_first())
            } else {
                compose_from(
                    push_prim(acc, Prim::Retain(y)),
                    a.update(0, Prim::Retain((x - y) as nat)),
                    b.drop_first(),
                )
            },
            (Prim::Retain(x), Prim::Delete(y)) => if x < y {
                compose_from(
                    push_prim(acc, Prim::Delete(x)),
                    a.drop_first(),
                    b.update(0, Prim::Delete((y - x) as nat)),
                )
            } else if x == y {
                compose_from(push_prim(acc, Prim::Delete(x)), a.drop_first(), b.drop_first())
            } else {
                compose_from(
                    push_prim(acc, Prim::Delete(y)),
                    a.update(0, Prim::Retain((x - y) as nat)),
                    b.drop_first(),
                )
            },
            (Prim::Insert(t), Prim::Retain(y)) => if t.len() < y {
                compose_from(
                    push_prim(acc, Prim::Insert(t)),
                    a.drop_first(),
                    b.update(0, Prim::Retain((y - t.len()) as nat)),
                )
            } else if t.len() == y {
                compose_from(push_prim(acc, Prim::Insert(t)), a.drop_first(), b.drop_first())
            } else {
                compose_from(
                    push_prim(acc, Prim::Insert(t.take(y as int))),
                    a.update(0, Prim::Insert(t.skip(y as int))),
                    b.drop_first(),
                )
            },
            (Prim::Insert(t), Prim::Delete(y)) => if t.len() < y {
                compose_from(acc, a.drop_first(), b.update(0, Prim::Delete((y - t.len()) as nat)))
            } else if t.len() == y {
                compose_from(acc, a.drop_first(), b.drop_first())
            } else {
                compose_from(acc, a.update(0, Prim::Insert(t.skip(y as int))), b.drop_first())
            },
        }
    }
}

/// The composition of `a` and then `b`.
pub open spec fn compose_ops(a: Seq<Prim>, b: Seq<Prim>) -> Seq<Prim> {
    compose_from(Seq::empty(), a, b)
}

/// The steps not yet read from `v`: the head `h`, then `v` from `i` on.
pub open spec fn rest_of(h: Option<PrimitiveOperation>, v: Seq<PrimitiveOperation>, i: int) -> Seq<Prim> {
    match h {
        Some(p) => seq![p@] + view_prims(v).skip(i),
        None => Seq::empty(),
    }
}

proof fn lemma_rest_of(h: Option<PrimitiveOperation>, v: Seq<PrimitiveOperation>, i: int)
    requires
        0 <= i <= v.len(),
    ensures
        h is Some ==> rest_of(h, v, i).len() > 0 && rest_of(h, v, i)[0] == h->0@ && rest_of(h, v, i).drop_first()
            =~= view_prims(v).skip(i) && src_len(rest_of(h, v, i)) == prim_src(h->0@) + src_len(
            view_prims(v).skip(i),
        ) && tgt_len(rest_of(h, v, i)) == prim_tgt(h->0@) + tgt_len(view_prims(v).skip(i)),
        h is None ==> rest_of(h, v, i).len() == 0 && src_len(rest_of(h, v, i)) == 0 && tgt_len(
            rest_of(h, v, i),
        ) == 0,
{
    if h is Some {
        assert(rest_of(h, v, i).drop_first() =~= view_prims(v).skip(i));
    }
}

/// Reads the next step of `v` at `i`.
fn next_prim(v: &Vec<PrimitiveOperation>, i: &mut usize) -> (r: Option<PrimitiveOperation>)
    requires
        *old(i) <= v@.len(),
    ensures
        *old(i) < v@.len() ==> *final(i) == *old(i) + 1 && r is Some,
        *old(i) == v@.len() ==> *final(i) == *old(i) && r is None,
        rest_of(r, v@, *final(i) as int) =~= view_prims(v@).skip(*old(i) as int),
{
    if *i < v.len() {
        let p = v[*i].copy();
        *i = *i + 1;
        let ghost vs = view_prims(v@);
        assert(vs.skip(*old(i) as int) =~= seq![vs[*old(i) as int]] + vs.skip(*i as int));
        Some(p)
    } else {
        None
    }
}


/// Transformation of two concurrent operations as the merge of their step
/// streams, appended to `la` and `lb`: an insertion passes to its own side and
/// is retained on the other, the left one first; overlapping retains and
/// deletions are cut to the shorter one.
pub open spec fn transform_from(la: Seq<Prim>, lb: Seq<Prim>, a: Seq<Prim>, b: Seq<Prim>) -> (Seq<Prim>, Seq<Prim>)
    decreases a.len() + b.len(),
{
    if a.len() > 0 && a[0] is Insert {
        let t = a[0]->Insert_0;
        transform_from(push_prim(la, Prim::Insert(t)), push_prim(lb, Prim::Retain(t.len())), a.drop_first(), b)
    } else if b.len() > 0 && b[0] is Insert {
        let t = b[0]->Insert_0;
        transform_from(push_prim(la, Prim::Retain(t.len())), push_prim(lb, Prim::Insert(t)), a, b.drop_first())
    } else if a.len() == 0 || b.len() == 0 {
        (la, lb)
    } else {
        match (a[0], b[0]) {
            (Prim::Retain(x), Prim::Retain(y)) => if x < y {
                transform_from(
                    push_prim(la, Prim::Retain(x)),
                    push_prim(lb, Prim::Retain(x)),
                    a.drop_first(),
                    b.update(0, Prim::Retain((y - x) as nat)),
                )
            } else if x == y {
                transform_from(push_prim(la, Prim::Retain(x)), push_prim(lb, Prim::Retain(x)), a.drop_first(), b.drop_first())
            } else {
                transform_from(
                    push_prim(la, Prim::Retain(y)),
                    push_prim(lb, Prim::Retain(y)),
                    a.update(0, Prim::Retain((x - y) as nat)),
                    b.drop_first(),
                )
            },
            (Prim::Delete(x), Prim::Delete(y)) => if x < y {
                transform_from(la, lb, a.drop_first(), b.update(0, Prim::Delete((y - x) as nat)))
            } else if x == y {
                transform_from(la, lb, a.drop_first(), b.drop_first())
            } else {
                transform_from(la, lb, a.update(0, Prim::Delete((x - y) as nat)), b.drop_first())
            },
            (Prim::Retain(x), Prim::Delete(y)) => if x < y {
                transform_from(la, push_prim(lb, Prim::Delete(x)), a.drop_first(), b.update(0, Prim::Delete((y - x) as nat)))
            } else if x == y {
                transform_from(la, push_prim(lb, Prim::Delete(x)), a.drop_first(), b.drop_first())
            } else {
                transform_from(la, push_prim(lb, Prim::Delete(y)), a.update(0, Prim::Retain((x - y) as nat)), b.drop_first())
            },
            (Prim::Delete(x), Prim::Retain(y)) => if x < y {
                transform_from(push_prim(la, Prim::Delete(x)), lb, a.drop_first(), b.update(0, Prim::Retain((y - x) as nat)))
            } else if x == y {
                transform_from(push_prim(la, Prim::Delete(x)), lb, a.drop_first(), b.drop_first())
            } else {
                transform_from(push_prim(la, Prim::Delete(y)), lb, a.update(0, Prim::Delete((x - y) as nat)), b.drop_first())
            },
            _ => (la, lb),
        }
    }
}

/// The pair `(a', b')` for concurrent `a` and `b`: `a'` follows `b`, `b'` follows `a`.
pub open spec fn transform_ops(a: Seq<Prim>, b: Seq<Prim>) -> (Seq<Prim>, Seq<Prim>) {
    transform_from(Seq::empty(), Seq::empty(), a, b)
}

pub open spec fn all_nonempty(s: Seq<Prim>) -> bool {
    forall|k: int| 0 <= k < s.len() ==> !prim_empty(#[trigger] s[k])
}

proof fn lemma_rest_nonempty(h: Option<PrimitiveOperation>, v: Seq<PrimitiveOperation>, i: int)
    requires
        0 <= i <= v.len(),
        all_nonempty(view_prims(v)),
        h is Some ==> !prim_empty(h->0@),
    ensures
        all_nonempty(rest_of(h, v, i)),
{
    let r = rest_of(h, v, i);
    if h is Some {
        assert forall|k: int| 0 <= k < r.len() implies !prim_empty(#[trigger] r[k]) by {
            if k > 0 {
                assert(r[k] == view_prims(v)[i + k - 1]);
            }
        }
    }
}

pub proof fn lemma_src_zero_empty(s: Seq<Prim>)
    requires
        all_nonempty(s),
        s.len() > 0,
        !(s[0] is Insert),
    ensures
        src_len(s) > 0,
{
}

impl Operation {
    /// The steps are canonical and the two cached lengths are right.
    pub closed spec fn well_formed(&self) -> bool {
        &&& canonical(self@)
        &&& self.source_len as nat == src_len(self@)
        &&& self.target_len as nat == tgt_len(self@)
    }

    pub open spec fn src(&self) -> nat {
        src_len(self@)
    }

    pub open spec fn tgt(&self) -> nat {
        tgt_len(self@)
    }

    pub fn new() -> (r: Operation)
        ensures
            r.well_formed(),
            r@ == Seq::<Prim>::empty(),
    {
        let r = Operation { operations: Vec::new(), source_len: 0, target_len: 0 };
        assert(r@ =~= Seq::<Prim>::empty());
        r
    }

    pub fn source_len(&self) -> (r: usize)
        requires
            self.well_formed(),
        ensures
            r == self.src(),
    {
        self.source_len
    }

    pub fn target_len(&self) -> (r: usize)
        requires
            self.well_formed(),
        ensures
            r == self.tgt(),
    {
        self.target_len
    }

    fn add(&mut self, op: PrimitiveOperation)
        requires
            old(self).well_formed(),
            old(self).src() + prim_src(op@) <= usize::MAX,
            old(self).tgt() + prim_tgt(op@) <= usize::MAX,
        ensures
            final(self).well_formed(),
            final(self)@ == push_prim(old(self)@, op@),
    {
        proof {
            lemma_len_push_prim(self@, op@);
            lemma_canonical_push_prim(self@, op@);
        }
        let ghost ops = self@;
        let n = self.operations.len();
        proof {
            if n > 0 {
                assert(ops =~= ops.drop_last().push(ops.last()));
                lemma_len_push(ops.drop_last(), ops.last());
            }
        }
        match op {
            PrimitiveOperation::Retain(len) => {
                if len == 0 {
                    return;
                }
                self.source_len = self.source_len + len;
                self.target_len = self.target_len + len;
                if n > 0 {
                    if let PrimitiveOperation::Retain(l) = self.operations[n - 1] {
                        self.operations.set(n - 1, PrimitiveOperation::Retain(l + len));
                        assert(self@ =~= push_prim(ops, op@));
                        return;
                    }
                }
                self.operations.push(PrimitiveOperation::Retain(len));
                assert(self@ =~= push_prim(ops, op@));
            },
            PrimitiveOperation::Insert(s) => {
                if s.len() == 0 {
                    return;
                }
                self.target_len = self.target_len + s.len();
                if n > 0 && matches!(self.operations[n - 1], PrimitiveOperation::Insert(_)) {
                    let last = self.operations.pop().unwrap();
                    if let PrimitiveOperation::Insert(mut l) = last {
                        let mut s = s;
                        l.append(&mut s);
                        self.operations.push(PrimitiveOperation::Insert(l));
                    }
                    assert(self@ =~= push_prim(ops, op@));
                    return;
                }
                self.operations.push(PrimitiveOperation::Insert(s));
                assert(self@ =~= push_prim(ops, op@));
            },
            PrimitiveOperation::Delete(len) => {
                if len == 0 {
                    return;
                }
                self.source_len = self.source_len + len;
                if n > 0 {
                    if let PrimitiveOperation::Delete(l) = self.operations[n - 1] {
                        self.operations.set(n - 1, PrimitiveOperation::Delete(l + len));
                        assert(self@ =~= push_prim(ops, op@));
                        return;
                    }
                }
                self.operations.push(PrimitiveOperation::Delete(len));
                assert(self@ =~= push_prim(ops, op@));
            },
        }
    }
}

impl Operation {
    /// Appends `Retain(len)`; `len` counts bytes.
    pub fn retain(&mut self, len: usize) -> (r: &mut Self)
        requires
            old(self).well_formed(),
            old(self).src() + len <= usize::MAX,
            old(self).tgt() + len <= usize::MAX,
        ensures
            r.well_formed(),
            r@ == push_prim(old(self)@, Prim::Retain(len as nat)),
            *final(self) == *final(r),
    {
        self.add(PrimitiveOperation::Retain(len));
        self
    }

    /// Appends `Insert(s)`.
    pub fn insert(&mut self, s: String) -> (r: &mut Self)
        requires
            old(self).well_formed(),
            old(self).tgt() + bytes_of(s@).len() <= usize::MAX,
        ensures
            r.well_formed(),
            r@ == push_prim(old(self)@, Prim::Insert(bytes_of(s@))),
            *final(self) == *final(r),
    {
        let b = string_bytes(&s);
        self.add(PrimitiveOperation::Insert(b));
        self
    }

    /// Appends `Insert(b)` with the bytes `b` as they are.
    pub fn insert_bytes(&mut self, b: Vec<u8>) -> (r: &mut Self)
        requires
            old(self).well_formed(),
            old(self).tgt() + b@.len() <= usize::MAX,
        ensures
            r.well_formed(),
            r@ == push_prim(old(self)@, Prim::Insert(b@)),
            *final(self) == *final(r),
    {
        self.add(PrimitiveOperation::Insert(b));
        self
    }

    /// A copy of the steps, in order.
    pub fn steps(&self) -> (r: Vec<PrimitiveOperation>)
        requires
            self.well_formed(),
        ensures
            view_prims(r@) == self@,
    {
        self.copy().operations
    }

    /// Appends `Delete(len)`; `len` counts bytes.
    pub fn delete(&mut self, len: usize) -> (r: &mut Self)
        requires
            old(self).well_formed(),
            old(self).src() + len <= usize::MAX,
        ensures
            r.well_formed(),
            r@ == push_prim(old(self)@, Prim::Delete(len as nat)),
            *final(self) == *final(r),
    {
        self.add(PrimitiveOperation::Delete(len));
        self
    }

    /// The string this operation makes of `target`. The steps work on bytes,
    /// and must not cut a character apart: the result has to be valid UTF-8.
    pub fn apply(&self, target: &String) -> (r: String)
        requires
            self.well_formed(),
            bytes_of(target@).len() == self.src(),
            valid_utf8(apply_bytes(self@, bytes_of(target@))),
        ensures
            bytes_of(r@) == apply_bytes(self@, bytes_of(target@)),
            bytes_of(r@).len() == self.tgt(),
            r@ == text_of(apply_bytes(self@, bytes_of(target@))),
    {
        let out = self.apply_to_bytes(target.as_str().as_bytes());
        proof {
            lemma_bytes_of_text(out@);
            lemma_apply_len(self@, bytes_of(target@));
        }
        string_from_bytes(out.as_slice())
    }

    /// Whether this operation fits `target`: its source length is the
    /// target's byte length and it cuts no character apart.
    pub fn fits(&self, target: &String) -> (r: bool)
        requires
            self.well_formed(),
        ensures
            r == (bytes_of(target@).len() == self.src() && valid_utf8(apply_bytes(self@, bytes_of(target@)))),
    {
        if byte_len(target) != self.source_len() {
            return false;
        }
        let out = self.apply_to_bytes(target.as_str().as_bytes());
        is_utf8(out.as_slice())
    }

    pub(crate) fn apply_to_bytes(&self, src: &[u8]) -> (r: Vec<u8>)
        requires
            self.well_formed(),
            src@.len() == self.src(),
        ensures
            r@ == apply_bytes(self@, src@),
    {
        let mut out: Vec<u8> = Vec::new();
        let mut pos: usize = 0;
        let mut k: usize = 0;
        let n = self.operations.len();
        let sl = src.len();
        proof {
            assert(self@.skip(0) =~= self@);
            assert(src@.skip(0) =~= src@);
        }
        while k < n
            invariant
                n == self.operations@.len(),
                sl == src@.len(),
                self.well_formed(),
                src@.len() == self.src(),
                k <= n,
                pos <= src@.len(),
                src_len(self@.skip(k as int)) == src@.len() - pos,
                out@ + apply_bytes(self@.skip(k as int), src@.skip(pos as int)) == apply_bytes(self@, src@),
            decreases n - k,
        {
            let ghost rest = self@.skip(k as int);
            let ghost s = src@.skip(pos as int);
            proof {
                assert(rest[0] == self.operations@[k as int]@);
                assert(rest.drop_first() =~= self@.skip(k + 1));
            }
            match &self.operations[k] {
                PrimitiveOperation::Retain(len) => {
                    let ghost before = out@;
                    let mut i: usize = 0;
                    while i < *len
                        invariant
                            sl == src@.len(),
                            pos + *len <= src@.len(),
                            i <= *len,
                            out@ == before + src@.subrange(pos as int, pos + i),
                        decreases *len - i,
                    {
                        out.push(src[pos + i]);
                        i = i + 1;
                        assert(out@ =~= before + src@.subrange(pos as int, pos + i));
                    }
                    proof {
                        assert(src@.subrange(pos as int, pos + *len) =~= s.take(*len as int));
                        assert(s.skip(*len as int) =~= src@.skip(pos + *len));
                        assert(out@ + apply_bytes(self@.skip(k + 1), src@.skip(pos + *len)) =~=
                            before + apply_bytes(rest, s));
                    }
                    pos = pos + *len;
                },
                PrimitiveOperation::Insert(t) => {
                    let ghost before = out@;
                    let mut i: usize = 0;
                    while i < t.len()
                        invariant
                            i <= t@.len(),
                            out@ == before + t@.subrange(0, i as int),
                        decreases t@.len() - i,
                    {
                        out.push(t[i]);
                        i = i + 1;
                        assert(out@ =~= before + t@.subrange(0, i as int));
                    }
                    proof {
                        assert(t@.subrange(0, t@.len() as int) =~= t@);
                        assert(out@ + apply_bytes(self@.skip(k + 1), s) =~= before + apply_bytes(rest, s));
                    }
                },
                PrimitiveOperation::Delete(len) => {
                    proof {
                        assert(s.skip(*len as int) =~= src@.skip(pos + *len));
                    }
                    pos = pos + *len;
                },
            }
            k = k + 1;
        }
        proof {
            assert(self@.skip(n as int) =~= Seq::<Prim>::empty());
        }
        assert(out@ =~= apply_bytes(self@, src@));
        out
    }
}


impl Operation {
    /// The operation that leaves `target` as it is.
    pub fn nop(target: &String) -> (r: Operation)
        ensures
            r.well_formed(),
            r@ == nop_ops(bytes_of(target@).len()),
            r.src() == bytes_of(target@).len(),
            r.tgt() == bytes_of(target@).len(),
    {
        let mut r = Operation::new();
        let n = byte_len(target);
        proof {
            lemma_len_push_prim(r@, Prim::Retain(n as nat));
        }
        r.add(PrimitiveOperation::Retain(n));
        r
    }

    /// The steps, for a reader that walks them.
    pub(crate) fn operations_ref(&self) -> (r: &Vec<PrimitiveOperation>)
        ensures
            view_prims(r@) == self@,
    {
        &self.operations
    }

    /// A copy of this operation.
    pub fn copy(&self) -> (r: Operation)
        requires
            self.well_formed(),
        ensures
            r.well_formed(),
            r@ == self@,
    {
        let mut v: Vec<PrimitiveOperation> = Vec::new();
        let mut i: usize = 0;
        while i < self.operations.len()
            invariant
                i <= self.operations@.len(),
                view_prims(v@) =~= view_prims(self.operations@).take(i as int),
            decreases self.operations@.len() - i,
        {
            let c = self.operations[i].copy();
            let ghost v0 = v@;
            v.push(c);
            assert(v@ == v0.push(c));
            assert(view_prims(v@) =~= view_prims(v0).push(c@));
            assert(view_prims(self.operations@)[i as int] == c@);
            i = i + 1;
            assert(view_prims(v@) =~= view_prims(self.operations@).take(i as int));
        }
        assert(self@.take(i as int) =~= self@);
        Operation { operations: v, source_len: self.source_len, target_len: self.target_len }
    }

    /// Every operation that the builder gives has no empty step and no two
    /// neighbouring steps of one kind.
    pub proof fn lemma_canonical(&self)
        requires
            self.well_formed(),
        ensures
            canonical(self@),
    {
    }

    /// The operation that does what `self` does and then what `other` does.
    #[verifier::rlimit(100)]
    #[verifier::spinoff_prover]
    pub fn compose(self, other: Operation) -> (r: Operation)
        requires
            self.well_formed(),
            other.well_formed(),
            self.tgt() == other.src(),
        ensures
            r.well_formed(),
            r@ == compose_ops(self@, other@),
            r.src() == self.src(),
            r.tgt() == other.tgt(),
    {
        let va = &self.operations;
        let vb = &other.operations;
        let mut ia: usize = 0;
        let mut ib: usize = 0;
        let mut ha = next_prim(va, &mut ia);
        let mut hb = next_prim(vb, &mut ib);
        let mut ret = Operation::new();
        proof {
            assert(view_prims(va@).skip(0) =~= self@);
            assert(view_prims(vb@).skip(0) =~= other@);
        }
        while ha.is_some() || hb.is_some()
            invariant
                ia <= va@.len(),
                ib <= vb@.len(),
                ha is None ==> ia == va@.len(),
                hb is None ==> ib == vb@.len(),
                self.well_formed(),
                other.well_formed(),
                ret.well_formed(),
                compose_from(ret@, rest_of(ha, va@, ia as int), rest_of(hb, vb@, ib as int))
                    == compose_ops(self@, other@),
                src_len(ret@) + src_len(rest_of(ha, va@, ia as int)) == self.src(),
                tgt_len(ret@) + tgt_len(rest_of(hb, vb@, ib as int)) == other.tgt(),
                tgt_len(rest_of(ha, va@, ia as int)) == src_len(rest_of(hb, vb@, ib as int)),
            decreases rest_of(ha, va@, ia as int).len() + rest_of(hb, vb@, ib as int).len(),
        {
            let ghost ra = rest_of(ha, va@, ia as int);
            let ghost rb = rest_of(hb, vb@, ib as int);
            let ghost r0 = ret@;
            proof {
                lemma_rest_of(ha, va@, ia as int);
                lemma_rest_of(hb, vb@, ib as int);
            }
            let cur_a = ha;
            let cur_b = hb;
            match cur_a {
                None => {
                    let pb = cur_b.unwrap();
                    proof { lemma_len_push_prim(ret@, pb@); }
                    ha = None;
                    hb = next_prim(vb, &mut ib);
                    ret.add(pb);
                },
                Some(pa) => match cur_b {
                    None => {
                        proof { lemma_len_push_prim(ret@, pa@); }
                        ha = next_prim(va, &mut ia);
                        hb = None;
                        ret.add(pa);
                    },
                    Some(pb) => match (pa, pb) {
                        (PrimitiveOperation::Delete(n), pb) => {
                            proof { lemma_len_push_prim(ret@, Prim::Delete(n as nat)); }
                            ha = next_prim(va, &mut ia);
                            hb = Some(pb);
                            ret.add(PrimitiveOperation::Delete(n));
                        },
                        (pa, PrimitiveOperation::Insert(t)) => {
                            proof { lemma_len_push_prim(ret@, Prim::Insert(t@)); }
                            ha = Some(pa);
                            hb = next_prim(vb, &mut ib);
                            ret.add(PrimitiveOperation::Insert(t));
                        },
                        (PrimitiveOperation::Retain(x), PrimitiveOperation::Retain(y)) => {
                            if x < y {
                                proof { lemma_len_push_prim(ret@, Prim::Retain(x as nat)); }
                                ha = next_prim(va, &mut ia);
                                hb = Some(PrimitiveOperation::Retain(y - x));
                                ret.add(PrimitiveOperation::Retain(x));
                                assert(rest_of(hb, vb@, ib as int) =~= rb.update(0, Prim::Retain((y - x) as nat)));
                            } else if x == y {
                                proof { lemma_len_push_prim(ret@, Prim::Retain(x as nat)); }
                                ha = next_prim(va, &mut ia);
                                hb = next_prim(vb, &mut ib);
                                ret.add(PrimitiveOperation::Retain(x));
                            } else {
                                proof { lemma_len_push_prim(ret@, Prim::Retain(y as nat)); }
                                ha = Some(PrimitiveOperation::Retain(x - y));
                                hb = next_prim(vb, &mut ib);
                                ret.add(PrimitiveOperation::Retain(y));
                                assert(rest_of(ha, va@, ia as int) =~= ra.update(0, Prim::Retain((x - y) as nat)));
                            }
                        },
                        (PrimitiveOperation::Retain(x), PrimitiveOperation::Delete(y)) => {
                            if x < y {
                                proof { lemma_len_push_prim(ret@, Prim::Delete(x as nat)); }
                                ha = next_prim(va, &mut ia);
                                hb = Some(PrimitiveOperation::Delete(y - x));
                                ret.add(PrimitiveOperation::Delete(x));
                                assert(rest_of(hb, vb@, ib as int) =~= rb.update(0, Prim::Delete((y - x) as nat)));
                            } else if x == y {
                                proof { lemma_len_push_prim(ret@, Prim::Delete(x as nat)); }
                                ha = next_prim(va, &mut ia);
                                hb = next_prim(vb, &mut ib);
                                ret.add(PrimitiveOperation::Delete(x));
                            } else {
                                proof { lemma_len_push_prim(ret@, Prim::Delete(y as nat)); }
                                ha = Some(PrimitiveOperation::Retain(x - y));
                                hb = next_prim(vb, &mut ib);
                                ret.add(PrimitiveOperation::Delete(y));
                                assert(rest_of(ha, va@, ia as int) =~= ra.update(0, Prim::Retain((x - y) as nat)));
                            }
                        },
                        (PrimitiveOperation::Insert(t), PrimitiveOperation::Retain(y)) => {
                            let tl = t.len();
                            if tl < y {
                                proof { lemma_len_push_prim(ret@, Prim::Insert(t@)); }
                                ha = next_prim(va, &mut ia);
                                hb = Some(PrimitiveOperation::Retain(y - tl));
                                ret.add(PrimitiveOperation::Insert(t));
                                assert(rest_of(hb, vb@, ib as int) =~= rb.update(0, Prim::Retain((y - tl) as nat)));
                            } else if tl == y {
                                proof { lemma_len_push_prim(ret@, Prim::Insert(t@)); }
                                ha = next_prim(va, &mut ia);
                                hb = next_prim(vb, &mut ib);
                                ret.add(PrimitiveOperation::Insert(t));
                            } else {
                                let mut t = t;
                                let ghost t0 = t@;
                                let tail = t.split_off(y);
                                assert(t@ =~= t0.take(y as int));
                                assert(tail@ =~= t0.skip(y as int));
                                proof { lemma_len_push_prim(ret@, Prim::Insert(t@)); }
                                ha = Some(PrimitiveOperation::Insert(tail));
                                hb = next_prim(vb, &mut ib);
                                ret.add(PrimitiveOperation::Insert(t));
                                assert(rest_of(ha, va@, ia as int) =~= ra.update(0, Prim::Insert(t0.skip(y as int))));
                            }
                        },
                        (PrimitiveOperation::Insert(t), PrimitiveOperation::Delete(y)) => {
                            let tl = t.len();
                            if tl < y {
                                ha = next_prim(va, &mut ia);
                                hb = Some(PrimitiveOperation::Delete(y - tl));
                                assert(rest_of(hb, vb@, ib as int) =~= rb.update(0, Prim::Delete((y - tl) as nat)));
                            } else if tl == y {
                                ha = next_prim(va, &mut ia);
                                hb = next_prim(vb, &mut ib);
                            } else {
                                let mut t = t;
                                let ghost t0 = t@;
                                let tail = t.split_off(y);
                                assert(tail@ =~= t0.skip(y as int));
                                ha = Some(PrimitiveOperation::Insert(tail));
                                hb = next_prim(vb, &mut ib);
                                assert(rest_of(ha, va@, ia as int) =~= ra.update(0, Prim::Insert(t0.skip(y as int))));
                            }
                        },
                    },
                },
            }
            proof {
                lemma_rest_of(ha, va@, ia as int);
                lemma_rest_of(hb, vb@, ib as int);
            }
        }
        ret
    }
}


impl Operation {
    /// The pair `(left', right')` for concurrent `self` (left) and `other`
    /// (right): `left'` applies after `other`, `right'` after `self`, and both
    /// orders reach the same string. At equal positions the left insertion
    /// comes first.
    #[verifier::rlimit(100)]
    #[verifier::spinoff_prover]
    pub fn transform(self, other: Operation) -> (r: (Operation, Operation))
        requires
            self.well_formed(),
            other.well_formed(),
            self.src() == other.src(),
            self.tgt() + other.tgt() <= usize::MAX,
        ensures
            r.0.well_formed(),
            r.1.well_formed(),
            (r.0@, r.1@) == transform_ops(self@, other@),
            r.0.src() == other.tgt(),
            r.1.src() == self.tgt(),
            r.0.tgt() == r.1.tgt(),
    {
        let va = &self.operations;
        let vb = &other.operations;
        let mut ia: usize = 0;
        let mut ib: usize = 0;
        let mut ha = next_prim(va, &mut ia);
        let mut hb = next_prim(vb, &mut ib);
        let mut la = Operation::new();
        let mut lb = Operation::new();
        proof {
            assert(view_prims(va@).skip(0) =~= self@);
            assert(view_prims(vb@).skip(0) =~= other@);
            assert(all_nonempty(self@));
            assert(all_nonempty(other@));
        }
        while ha.is_some() || hb.is_some()
            invariant
                ia <= va@.len(),
                ib <= vb@.len(),
                ha is None ==> ia == va@.len(),
                hb is None ==> ib == vb@.len(),
                self.well_formed(),
                other.well_formed(),
                self.tgt() + other.tgt() <= usize::MAX,
                la.well_formed(),
                lb.well_formed(),
                all_nonempty(rest_of(ha, va@, ia as int)),
                all_nonempty(rest_of(hb, vb@, ib as int)),
                all_nonempty(view_prims(va@)),
                all_nonempty(view_prims(vb@)),
                transform_from(la@, lb@, rest_of(ha, va@, ia as int), rest_of(hb, vb@, ib as int))
                    == transform_ops(self@, other@),
                src_len(rest_of(ha, va@, ia as int)) == src_len(rest_of(hb, vb@, ib as int)),
                src_len(la@) + tgt_len(rest_of(hb, vb@, ib as int)) == other.tgt(),
                src_len(lb@) + tgt_len(rest_of(ha, va@, ia as int)) == self.tgt(),
                tgt_len(la@) == tgt_len(lb@),
                tgt_len(la@) + tgt_len(rest_of(ha, va@, ia as int)) + tgt_len(rest_of(hb, vb@, ib as int))
                    <= self.tgt() + other.tgt(),
            decreases rest_of(ha, va@, ia as int).len() + rest_of(hb, vb@, ib as int).len(),
        {
            let ghost ra = rest_of(ha, va@, ia as int);
            let ghost rb = rest_of(hb, vb@, ib as int);
            proof {
                lemma_rest_of(ha, va@, ia as int);
                lemma_rest_of(hb, vb@, ib as int);
            }
            let cur_a = ha;
            let cur_b = hb;
            if cur_a.is_some() && matches!(cur_a, Some(PrimitiveOperation::Insert(_))) {
                if let Some(PrimitiveOperation::Insert(t)) = cur_a {
                    let tl = t.len();
                    proof {
                        lemma_len_push_prim(la@, Prim::Insert(t@));
                        lemma_len_push_prim(lb@, Prim::Retain(tl as nat));
                    }
                    lb.add(PrimitiveOperation::Retain(tl));
                    la.add(PrimitiveOperation::Insert(t));
                }
                ha = next_prim(va, &mut ia);
                hb = cur_b;
            } else if cur_b.is_some() && matches!(cur_b, Some(PrimitiveOperation::Insert(_))) {
                if let Some(PrimitiveOperation::Insert(t)) = cur_b {
                    let tl = t.len();
                    proof {
                        lemma_len_push_prim(la@, Prim::Retain(tl as nat));
                        lemma_len_push_prim(lb@, Prim::Insert(t@));
                    }
                    la.add(PrimitiveOperation::Retain(tl));
                    lb.add(PrimitiveOperation::Insert(t));
                }
                ha = cur_a;
                hb = next_prim(vb, &mut ib);
            } else if cur_a.is_none() || cur_b.is_none() {
                proof {
                    if ra.len() > 0 {
                        lemma_src_zero_empty(ra);
                    }
                    if rb.len() > 0 {
                        lemma_src_zero_empty(rb);
                    }
                }
                ha = None;
                hb = None;
            } else {
                let pa = cur_a.unwrap();
                let pb = cur_b.unwrap();
                match (pa, pb) {
                    (PrimitiveOperation::Retain(x), PrimitiveOperation::Retain(y)) => {
                        let m = if x < y { x } else { y };
                        proof {
                            lemma_len_push_prim(la@, Prim::Retain(m as nat));
                            lemma_len_push_prim(lb@, Prim::Retain(m as nat));
                        }
                        la.add(PrimitiveOperation::Retain(m));
                        lb.add(PrimitiveOperation::Retain(m));
                        if x < y {
                            ha = next_prim(va, &mut ia);
                            hb = Some(PrimitiveOperation::Retain(y - x));
                            assert(rest_of(hb, vb@, ib as int) =~= rb.update(0, Prim::Retain((y - x) as nat)));
                        } else if x == y {
                            ha = next_prim(va, &mut ia);
                            hb = next_prim(vb, &mut ib);
                        } else {
                            ha = Some(PrimitiveOperation::Retain(x - y));
                            hb = next_prim(vb, &mut ib);
                            assert(rest_of(ha, va@, ia as int) =~= ra.update(0, Prim::Retain((x - y) as nat)));
                        }
                    },
                    (PrimitiveOperation::Delete(x), PrimitiveOperation::Delete(y)) => {
                        if x < y {
                            ha = next_prim(va, &mut ia);
                            hb = Some(PrimitiveOperation::Delete(y - x));
                            assert(rest_of(hb, vb@, ib as int) =~= rb.update(0, Prim::Delete((y - x) as nat)));
                        } else if x == y {
                            ha = next_prim(va, &mut ia);
                            hb = next_prim(vb, &mut ib);
                        } else {
                            ha = Some(PrimitiveOperation::Delete(x - y));
                            hb = next_prim(vb, &mut ib);
                            assert(rest_of(ha, va@, ia as int) =~= ra.update(0, Prim::Delete((x - y) as nat)));
                        }
                    },
                    (PrimitiveOperation::Retain(x), PrimitiveOperation::Delete(y)) => {
                        let m = if x < y { x } else { y };
                        proof {
                            lemma_len_push_prim(lb@, Prim::Delete(m as nat));
                        }
                        lb.add(PrimitiveOperation::Delete(m));
                        if x < y {
                            ha = next_prim(va, &mut ia);
                            hb = Some(PrimitiveOperation::Delete(y - x));
                            assert(rest_of(hb, vb@, ib as int) =~= rb.update(0, Prim::Delete((y - x) as nat)));
                        } else if x == y {
                            ha = next_prim(va, &mut ia);
                            hb = next_prim(vb, &mut ib);
                        } else {
                            ha = Some(PrimitiveOperation::Retain(x - y));
                            hb = next_prim(vb, &mut ib);
                            assert(rest_of(ha, va@, ia as int) =~= ra.update(0, Prim::Retain((x - y) as nat)));
                        }
                    },
                    (PrimitiveOperation::Delete(x), PrimitiveOperation::Retain(y)) => {
                        let m = if x < y { x } else { y };
                        proof {
                            lemma_len_push_prim(la@, Prim::Delete(m as nat));
                        }
                        la.add(PrimitiveOperation::Delete(m));
                        if x < y {
                            ha = next_prim(va, &mut ia);
                            hb = Some(PrimitiveOperation::Retain(y - x));
                            assert(rest_of(hb, vb@, ib as int) =~= rb.update(0, Prim::Retain((y - x) as nat)));
                        } else if x == y {
                            ha = next_prim(va, &mut ia);
                            hb = next_prim(vb, &mut ib);
                        } else {
                            ha = Some(PrimitiveOperation::Delete(x - y));
                            hb = next_prim(vb, &mut ib);
                            assert(rest_of(ha, va@, ia as int) =~= ra.update(0, Prim::Delete((x - y) as nat)));
                        }
                    },
                    (pa, pb) => {
                        ha = Some(pa);
                        hb = Some(pb);
                    },
                }
            }
            proof {
                lemma_rest_of(ha, va@, ia as int);
                lemma_rest_of(hb, vb@, ib as int);
                lemma_rest_nonempty(ha, va@, ia as int);
                lemma_rest_nonempty(hb, vb@, ib as int);
            }
        }
        (la, lb)
    }
}

} // verus!

verus! {

impl crate::Operation for Operation {
    type Target = String;

    type Model = Seq<Prim>;

    type Content = Seq<char>;

    open spec fn op_model(&self) -> Seq<Prim> {
        self@
    }

    open spec fn target_model(t: &String) -> Seq<char> {
        t@
    }

    open spec fn op_valid(&self) -> bool {
        self.well_formed()
    }

    open spec fn fits(op: Seq<Prim>, c: Seq<char>) -> bool {
        bytes_of(c).len() == src_len(op) && valid_utf8(apply_bytes(op, bytes_of(c)))
    }

    open spec fn composable(a: Seq<Prim>, b: Seq<Prim>) -> bool {
        tgt_len(a) == src_len(b)
    }

    open spec fn transformable(a: Seq<Prim>, b: Seq<Prim>) -> bool {
        src_len(a) == src_len(b) && tgt_len(a) + tgt_len(b) <= usize::MAX
    }

    open spec fn apply_model(op: Seq<Prim>, c: Seq<char>) -> Seq<char> {
        text_of(apply_bytes(op, bytes_of(c)))
    }

    open spec fn compose_model(a: Seq<Prim>, b: Seq<Prim>) -> Seq<Prim> {
        compose_ops(a, b)
    }

    open spec fn transform_model(a: Seq<Prim>, b: Seq<Prim>) -> (Seq<Prim>, Seq<Prim>) {
        transform_ops(a, b)
    }

    open spec fn nop_model(c: Seq<char>) -> Seq<Prim> {
        nop_ops(bytes_of(c).len())
    }

    open spec fn empty_model() -> Seq<Prim> {
        Seq::empty()
    }

    open spec fn empty_content() -> Seq<char> {
        Seq::empty()
    }

    fn empty() -> (r: Self) {
        Operation::new()
    }

    fn empty_target() -> (r: String) {
        String::new()
    }

    fn copy_op(&self) -> (r: Self) {
        self.copy()
    }

    fn copy_target(t: &String) -> (r: String) {
        t.clone()
    }

    fn nop(target: &String) -> (r: Self) {
        Operation::nop(target)
    }

    fn fits_target(&self, target: &String) -> (r: bool) {
        self.fits(target)
    }

    fn composes_with(&self, other: &Self) -> (r: bool) {
        self.target_len() == other.source_len()
    }

    fn transforms_with(&self, other: &Self) -> (r: bool) {
        self.source_len() == other.source_len() && self.target_len() <= usize::MAX - other.target_len()
    }

    fn apply(&self, target: &String) -> (r: String) {
        Operation::apply(self, target)
    }

    fn compose(self, other: Self) -> (r: Self) {
        Operation::compose(self, other)
    }

    fn transform(self, other: Self) -> (r: (Self, Self)) {
        Operation::transform(self, other)
    }
}

} // verus!
