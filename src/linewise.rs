//! Line-indexed operations on a list of lines, whose steps may rewrite a
//! single line with a character-wise operation.
use vstd::prelude::*;
use crate::charwise;
use crate::charwise::{Prim, apply_bytes, src_len, tgt_len, compose_ops, transform_ops};
use crate::text::{bytes_of, text_of, lemma_text_of_bytes, string_bytes, string_from_bytes};

verus! {

/// One step of a line-wise operation, as the proofs see it.
pub enum LPrim {
    Retain(nat),
    Insert(Seq<u8>),
    Delete(nat),
    Modify(Seq<Prim>),
}

/// Lines of the source that a step reads.
pub open spec fn lprim_src(p: LPrim) -> nat {
    match p {
        LPrim::Retain(n) => n,
        LPrim::Insert(_) => 0,
        LPrim::Delete(n) => n,
        LPrim::Modify(_) => 1,
    }
}

/// Lines of the result that a step writes.
pub open spec fn lprim_tgt(p: LPrim) -> nat {
    match p {
        LPrim::Retain(n) => n,
        LPrim::Insert(_) => 1,
        LPrim::Delete(_) => 0,
        LPrim::Modify(_) => 1,
    }
}

pub open spec fn lsrc_len(ops: Seq<LPrim>) -> nat
    decreases ops.len(),
{
    if ops.len() == 0 {
        0
    } else {
        lprim_src(ops[0]) + lsrc_len(ops.drop_first())
    }
}

pub open spec fn ltgt_len(ops: Seq<LPrim>) -> nat
    decreases ops.len(),
{
    if ops.len() == 0 {
        0
    } else {
        lprim_tgt(ops[0]) + ltgt_len(ops.drop_first())
    }
}

/// No empty retain or delete, and no two neighbouring retains or deletes.
pub open spec fn lcanonical(ops: Seq<LPrim>) -> bool {
    &&& forall|i: int|
        0 <= i < ops.len() ==> (#[trigger] ops[i] is Retain ==> ops[i]->Retain_0 > 0) && (ops[i] is Delete
            ==> ops[i]->Delete_0 > 0)
    &&& forall|i: int|
        0 <= i < ops.len() - 1 ==> !(#[trigger] ops[i] is Retain && ops[i + 1] is Retain) && !(ops[i] is Delete
            && ops[i + 1] is Delete)
}

/// Appending a step the way the builder does: an empty retain or delete is
/// dropped, and a retain or delete after one of its kind is fused with it.
pub open spec fn push_line(ops: Seq<LPrim>, p: LPrim) -> Seq<LPrim> {
    match p {
        LPrim::Retain(n) => if n == 0 {
            ops
        } else if ops.len() > 0 && ops.last() is Retain {
            ops.drop_last().push(LPrim::Retain(ops.last()->Retain_0 + n))
        } else {
            ops.push(p)
        },
        LPrim::Delete(n) => if n == 0 {
            ops
        } else if ops.len() > 0 && ops.last() is Delete {
            ops.drop_last().push(LPrim::Delete(ops.last()->Delete_0 + n))
        } else {
            ops.push(p)
        },
        _ => ops.push(p),
    }
}

/// What a character-wise operation makes of one line; a line whose length
/// differs from the operation's source length is left as it is.
pub open spec fn modify_line(c: Seq<Prim>, l: Seq<u8>) -> Seq<u8> {
    if l.len() == src_len(c) {
        apply_bytes(c, l)
    } else {
        l
    }
}

/// The lines, as bytes, that an operation makes of the lines `s`.
pub open spec fn apply_lines(ops: Seq<LPrim>, s: Seq<Seq<u8>>) -> Seq<Seq<u8>>
    decreases ops.len(),
{
    if ops.len() == 0 {
        Seq::empty()
    } else {
        match ops[0] {
            LPrim::Retain(n) => s.take(n as int) + apply_lines(ops.drop_first(), s.skip(n as int)),
            LPrim::Insert(t) => seq![t] + apply_lines(ops.drop_first(), s),
            LPrim::Delete(n) => apply_lines(ops.drop_first(), s.skip(n as int)),
            LPrim::Modify(c) => seq![modify_line(c, s[0])] + apply_lines(ops.drop_first(), s.skip(1)),
        }
    }
}

/// Every modification of `ops` meets a line of the length it reads.
pub open spec fn line_fits(ops: Seq<LPrim>, s: Seq<Seq<u8>>) -> bool
    decreases ops.len(),
{
    if ops.len() == 0 {
        true
    } else {
        match ops[0] {
            LPrim::Retain(n) => line_fits(ops.drop_first(), s.skip(n as int)),
            LPrim::Insert(_) => line_fits(ops.drop_first(), s),
            LPrim::Delete(n) => line_fits(ops.drop_first(), s.skip(n as int)),
            LPrim::Modify(c) => s.len() > 0 && s[0].len() == src_len(c) && line_fits(ops.drop_first(), s.skip(1)),
        }
    }
}

/// The bytes of each line.
pub open spec fn lines_bytes(v: Seq<String>) -> Seq<Seq<u8>> {
    v.map_values(|s: String| bytes_of(s@))
}

/// The strings that byte lines stand for.
pub open spec fn lines_text(v: Seq<Seq<u8>>) -> Seq<Seq<char>> {
    v.map_values(|b: Seq<u8>| text_of(b))
}

/// A retain or delete cut to what is left after `k` of its lines.
pub open spec fn shorten(p: LPrim, k: nat) -> LPrim {
    match p {
        LPrim::Retain(n) => LPrim::Retain((n - k) as nat),
        LPrim::Delete(n) => LPrim::Delete((n - k) as nat),
        _ => p,
    }
}

/// Drops one line from the head of `s`, which is a retain or a delete.
pub open spec fn drop_one(s: Seq<LPrim>) -> Seq<LPrim> {
    if lprim_src(s[0]) <= 1 {
        s.drop_first()
    } else {
        s.update(0, shorten(s[0], 1))
    }
}

/// The composition of two step streams, appended to `acc`; it follows the
/// character-wise one, with a modification read as one line. An inserted line
/// that is then modified is inserted modified; two modifications are composed.
/// Where the lengths inside a modification do not line up, the later
/// modification is left out.
pub open spec fn compose_lines_from(acc: Seq<LPrim>, a: Seq<LPrim>, b: Seq<LPrim>) -> Seq<LPrim>
    decreases a.len() + b.len(),
{
    if a.len() == 0 && b.len() == 0 {
        acc
    } else if a.len() == 0 {
        compose_lines_from(push_line(acc, b[0]), a, b.drop_first())
    } else if b.len() == 0 {
        compose_lines_from(push_line(acc, a[0]), a.drop_first(), b)
    } else {
        match (a[0], b[0]) {
            (LPrim::Delete(n), _) => compose_lines_from(push_line(acc, LPrim::Delete(n)), a.drop_first(), b),
            (_, LPrim::Insert(t)) => compose_lines_from(push_line(acc, LPrim::Insert(t)), a, b.drop_first()),
            (LPrim::Retain(x), LPrim::Retain(y)) => if x < y {
                compose_lines_from(push_line(acc, LPrim::Retain(x)), a.drop_first(), b.update(0, LPrim::Retain((y - x) as nat)))
            } else if x == y {
                compose_lines_from(push_line(acc, LPrim::Retain(x)), a.drop_first(), b.drop_first())
            } else {
                compose_lines_from(push_line(acc, LPrim::Retain(y)), a.update(0, LPrim::Retain((x - y) as nat)), b.drop_first())
            },
            (LPrim::Retain(x), LPrim::Delete(y)) => if x < y {
                compose_lines_from(push_line(acc, LPrim::Delete(x)), a.drop_first(), b.update(0, LPrim::Delete((y - x) as nat)))
            } else if x == y {
                compose_lines_from(push_line(acc, LPrim::Delete(x)), a.drop_first(), b.drop_first())
            } else {
                compose_lines_from(push_line(acc, LPrim::Delete(y)), a.update(0, LPrim::Retain((x - y) as nat)), b.drop_first())
            },
            (LPrim::Retain(_), LPrim::Modify(c)) => compose_lines_from(push_line(acc, LPrim::Modify(c)), drop_one(a), b.drop_first()),
            (LPrim::Insert(_), LPrim::Delete(_)) => compose_lines_from(acc, a.drop_first(), drop_one(b)),
            (LPrim::Insert(t), LPrim::Retain(_)) => compose_lines_from(push_line(acc, LPrim::Insert(t)), a.drop_first(), drop_one(b)),
            (LPrim::Insert(t), LPrim::Modify(c)) => compose_lines_from(
                push_line(acc, LPrim::Insert(modify_line(c, t))),
                a.drop_first(),
                b.drop_first(),
            ),
            (LPrim::Modify(c), LPrim::Retain(_)) => compose_lines_from(push_line(acc, LPrim::Modify(c)), a.drop_first(), drop_one(b)),
            (LPrim::Modify(_), LPrim::Delete(_)) => compose_lines_from(push_line(acc, LPrim::Delete(1)), a.drop_first(), drop_one(b)),
            (LPrim::Modify(c), LPrim::Modify(d)) => compose_lines_from(
                push_line(acc, LPrim::Modify(if tgt_len(c) == src_len(d) { compose_ops(c, d) } else { c })),
                a.drop_first(),
                b.drop_first(),
            ),
        }
    }
}

pub open spec fn compose_lines(a: Seq<LPrim>, b: Seq<LPrim>) -> Seq<LPrim> {
    compose_lines_from(Seq::empty(), a, b)
}

/// Two character-wise operations that can be transformed against each other.
pub open spec fn char_transformable(c: Seq<Prim>, d: Seq<Prim>) -> bool {
    src_len(c) == src_len(d) && tgt_len(c) + tgt_len(d) <= usize::MAX
}

/// The transformation of two step streams, appended to `la` and `lb`; it
/// follows the character-wise one, with a modification read as one line. Two
/// modifications of one line are transformed against each other (left as
/// they are where their lengths do not line up); a modification of a line
/// that the other side deletes is dropped.
pub open spec fn transform_lines_from(la: Seq<LPrim>, lb: Seq<LPrim>, a: Seq<LPrim>, b: Seq<LPrim>) -> (Seq<LPrim>, Seq<LPrim>)
    decreases a.len() + b.len(),
{
    if a.len() > 0 && a[0] is Insert {
        transform_lines_from(push_line(la, a[0]), push_line(lb, LPrim::Retain(1)), a.drop_first(), b)
    } else if b.len() > 0 && b[0] is Insert {
        transform_lines_from(push_line(la, LPrim::Retain(1)), push_line(lb, b[0]), a, b.drop_first())
    } else if a.len() == 0 || b.len() == 0 {
        (la, lb)
    } else {
        match (a[0], b[0]) {
            (LPrim::Retain(x), LPrim::Retain(y)) => if x < y {
                transform_lines_from(push_line(la, LPrim::Retain(x)), push_line(lb, LPrim::Retain(x)), a.drop_first(), b.update(0, LPrim::Retain((y - x) as nat)))
            } else if x == y {
                transform_lines_from(push_line(la, LPrim::Retain(x)), push_line(lb, LPrim::Retain(x)), a.drop_first(), b.drop_first())
            } else {
                transform_lines_from(push_line(la, LPrim::Retain(y)), push_line(lb, LPrim::Retain(y)), a.update(0, LPrim::Retain((x - y) as nat)), b.drop_first())
            },
            (LPrim::Delete(x), LPrim::Delete(y)) => if x < y {
                transform_lines_from(la, lb, a.drop_first(), b.update(0, LPrim::Delete((y - x) as nat)))
            } else if x == y {
                transform_lines_from(la, lb, a.drop_first(), b.drop_first())
            } else {
                transform_lines_from(la, lb, a.update(0, LPrim::Delete((x - y) as nat)), b.drop_first())
            },
            (LPrim::Modify(c), LPrim::Modify(d)) => if char_transformable(c, d) {
                transform_lines_from(
                    push_line(la, LPrim::Modify(transform_ops(c, d).0)),
                    push_line(lb, LPrim::Modify(transform_ops(c, d).1)),
                    a.drop_first(),
                    b.drop_first(),
                )
            } else {
                transform_lines_from(push_line(la, LPrim::Modify(c)), push_line(lb, LPrim::Modify(d)), a.drop_first(), b.drop_first())
            },
            (LPrim::Retain(x), LPrim::Delete(y)) => if x < y {
                transform_lines_from(la, push_line(lb, LPrim::Delete(x)), a.drop_first(), b.update(0, LPrim::Delete((y - x) as nat)))
            } else if x == y {
                transform_lines_from(la, push_line(lb, LPrim::Delete(x)), a.drop_first(), b.drop_first())
            } else {
                transform_lines_from(la, push_line(lb, LPrim::Delete(y)), a.update(0, LPrim::Retain((x - y) as nat)), b.drop_first())
            },
            (LPrim::Delete(x), LPrim::Retain(y)) => if x < y {
                transform_lines_from(push_line(la, LPrim::Delete(x)), lb, a.drop_first(), b.update(0, LPrim::Retain((y - x) as nat)))
            } else if x == y {
                transform_lines_from(push_line(la, LPrim::Delete(x)), lb, a.drop_first(), b.drop_first())
            } else {
                transform_lines_from(push_line(la, LPrim::Delete(y)), lb, a.update(0, LPrim::Delete((x - y) as nat)), b.drop_first())
            },
            (LPrim::Modify(c), LPrim::Retain(_)) => transform_lines_from(push_line(la, LPrim::Modify(c)), push_line(lb, LPrim::Retain(1)), a.drop_first(), drop_one(b)),
            (LPrim::Retain(_), LPrim::Modify(d)) => transform_lines_from(push_line(la, LPrim::Retain(1)), push_line(lb, LPrim::Modify(d)), drop_one(a), b.drop_first()),
            (LPrim::Modify(_), LPrim::Delete(_)) => transform_lines_from(la, push_line(lb, LPrim::Delete(1)), a.drop_first(), drop_one(b)),
            (LPrim::Delete(_), LPrim::Modify(_)) => transform_lines_from(push_line(la, LPrim::Delete(1)), lb, drop_one(a), b.drop_first()),
            _ => (la, lb),
        }
    }
}

pub open spec fn transform_lines(a: Seq<LPrim>, b: Seq<LPrim>) -> (Seq<LPrim>, Seq<LPrim>) {
    transform_lines_from(Seq::empty(), Seq::empty(), a, b)
}

pub proof fn lemma_llen_push(ops: Seq<LPrim>, p: LPrim)
    ensures
        lsrc_len(ops.push(p)) == lsrc_len(ops) + lprim_src(p),
        ltgt_len(ops.push(p)) == ltgt_len(ops) + lprim_tgt(p),
    decreases ops.len(),
{
    if ops.len() == 0 {
        assert(ops.push(p).drop_first() =~= Seq::<LPrim>::empty());
        assert(lsrc_len(Seq::<LPrim>::empty()) == 0);
        assert(ltgt_len(Seq::<LPrim>::empty()) == 0);
    } else {
        lemma_llen_push(ops.drop_first(), p);
        assert(ops.push(p).drop_first() =~= ops.drop_first().push(p));
        assert(ops.push(p)[0] == ops[0]);
    }
}

pub proof fn lemma_llen_push_line(ops: Seq<LPrim>, p: LPrim)
    ensures
        lsrc_len(push_line(ops, p)) == lsrc_len(ops) + lprim_src(p),
        ltgt_len(push_line(ops, p)) == ltgt_len(ops) + lprim_tgt(p),
{
    if ops.len() > 0 {
        let init = ops.drop_last();
        assert(ops =~= init.push(ops.last()));
        lemma_llen_push(init, ops.last());
        match p {
            LPrim::Retain(n) => lemma_llen_push(init, LPrim::Retain(ops.last()->Retain_0 + n)),
            LPrim::Delete(n) => lemma_llen_push(init, LPrim::Delete(ops.last()->Delete_0 + n)),
            _ => {},
        }
    }
    lemma_llen_push(ops, p);
}

pub proof fn lemma_lcanonical_push_line(ops: Seq<LPrim>, p: LPrim)
    requires
        lcanonical(ops),
    ensures
        lcanonical(push_line(ops, p)),
{
    let r = push_line(ops, p);
    assert forall|i: int| 0 <= i < r.len() - 1 implies !(#[trigger] r[i] is Retain && r[i + 1] is Retain) && !(
    r[i] is Delete && r[i + 1] is Delete) by {
        assert(r[i] == ops[i]);
        if i + 1 < ops.len() {
            assert(r[i + 1] == ops[i + 1] || (r[i + 1] is Retain <==> ops[i + 1] is Retain) && (r[i + 1] is Delete
                <==> ops[i + 1] is Delete));
        }
    }
}


/// No retain or delete of zero lines.
pub open spec fn l_nonzero(s: Seq<LPrim>) -> bool {
    forall|k: int|
        0 <= k < s.len() ==> (#[trigger] s[k] is Retain ==> s[k]->Retain_0 > 0) && (s[k] is Delete ==> s[k]->Delete_0
            > 0)
}

proof fn lemma_lsrc_positive(s: Seq<LPrim>)
    requires
        l_nonzero(s),
        s.len() > 0,
        !(s[0] is Insert),
    ensures
        lsrc_len(s) > 0,
{
}

/// One step of a line-wise operation.
#[derive(Clone, Debug)]
pub enum LineOperation {
    /// Keep the next `n` lines.
    Retain(usize),
    /// Write a line with these bytes.
    Insert(Vec<u8>),
    /// Rewrite the next line with a character-wise operation.
    Modify(charwise::Operation),
    /// Drop the next `n` lines.
    Delete(usize),
}

impl View for LineOperation {
    type V = LPrim;

    open spec fn view(&self) -> LPrim {
        match self {
            LineOperation::Retain(n) => LPrim::Retain(*n as nat),
            LineOperation::Insert(s) => LPrim::Insert(s@),
            LineOperation::Modify(c) => LPrim::Modify(c@),
            LineOperation::Delete(n) => LPrim::Delete(*n as nat),
        }
    }
}

/// A step whose nested operation, if any, is well formed.
pub open spec fn lop_wf(p: LineOperation) -> bool {
    match p {
        LineOperation::Modify(c) => c.well_formed(),
        _ => true,
    }
}

impl LineOperation {
    pub fn copy(&self) -> (r: LineOperation)
        requires
            lop_wf(*self),
        ensures
            r@ == self@,
            lop_wf(r),
    {
        match self {
            LineOperation::Retain(n) => LineOperation::Retain(*n),
            LineOperation::Insert(s) => {
                let c = s.clone();
                assert(c@ =~= s@);
                LineOperation::Insert(c)
            },
            LineOperation::Modify(c) => LineOperation::Modify(c.copy()),
            LineOperation::Delete(n) => LineOperation::Delete(*n),
        }
    }
}

pub open spec fn view_lines(v: Seq<LineOperation>) -> Seq<LPrim> {
    v.map_values(|p: LineOperation| p@)
}

/// A line-wise operation: a run of steps over a list of lines, with the
/// number of lines of its source and of its result.
#[derive(Clone, Debug)]
pub struct Operation {
    operations: Vec<LineOperation>,
    source_len: usize,
    target_len: usize,
}

impl View for Operation {
    type V = Seq<LPrim>;

    closed spec fn view(&self) -> Seq<LPrim> {
        view_lines(self.operations@)
    }
}

/// The steps not yet read from `v`: the head `h`, then `v` from `i` on.
pub open spec fn lrest_of(h: Option<LineOperation>, v: Seq<LineOperation>, i: int) -> Seq<LPrim> {
    match h {
        Some(p) => seq![p@] + view_lines(v).skip(i),
        None => Seq::empty(),
    }
}

/// The head and every step of `v` from `i` on are well formed.
pub open spec fn lrest_wf(h: Option<LineOperation>, v: Seq<LineOperation>, i: int) -> bool {
    &&& h is Some ==> lop_wf(h->0)
    &&& forall|k: int| i <= k < v.len() ==> lop_wf(#[trigger] v[k])
}

proof fn lemma_lrest_of(h: Option<LineOperation>, v: Seq<LineOperation>, i: int)
    requires
        0 <= i <= v.len(),
    ensures
        h is Some ==> lrest_of(h, v, i).len() > 0 && lrest_of(h, v, i)[0] == h->0@ && lrest_of(h, v, i).drop_first()
            =~= view_lines(v).skip(i) && lsrc_len(lrest_of(h, v, i)) == lprim_src(h->0@) + lsrc_len(
            view_lines(v).skip(i),
        ) && ltgt_len(lrest_of(h, v, i)) == lprim_tgt(h->0@) + ltgt_len(view_lines(v).skip(i)),
        h is None ==> lrest_of(h, v, i).len() == 0 && lsrc_len(lrest_of(h, v, i)) == 0 && ltgt_len(
            lrest_of(h, v, i),
        ) == 0,
{
    if h is Some {
        assert(lrest_of(h, v, i).drop_first() =~= view_lines(v).skip(i));
    }
}

proof fn lemma_lrest_nonzero(h: Option<LineOperation>, v: Seq<LineOperation>, i: int)
    requires
        0 <= i <= v.len(),
        l_nonzero(view_lines(v)),
        h is Some ==> l_nonzero(seq![h->0@]),
    ensures
        l_nonzero(lrest_of(h, v, i)),
{
    let r = lrest_of(h, v, i);
    if h is Some {
        assert forall|k: int| 0 <= k < r.len() implies (#[trigger] r[k] is Retain ==> r[k]->Retain_0 > 0) && (
        r[k] is Delete ==> r[k]->Delete_0 > 0) by {
            if k > 0 {
                assert(r[k] == view_lines(v)[i + k - 1]);
            } else {
                assert(r[k] == seq![h->0@][0]);
            }
        }
    }
}

/// Reads the next step of `v` at `i`.
fn next_line(v: &Vec<LineOperation>, i: &mut usize) -> (r: Option<LineOperation>)
    requires
        *old(i) <= v@.len(),
        lrest_wf(None, v@, *old(i) as int),
    ensures
        *old(i) < v@.len() ==> *final(i) == *old(i) + 1 && r is Some,
        *old(i) == v@.len() ==> *final(i) == *old(i) && r is None,
        lrest_of(r, v@, *final(i) as int) =~= view_lines(v@).skip(*old(i) as int),
        lrest_wf(r, v@, *final(i) as int),
{
    if *i < v.len() {
        let p = v[*i].copy();
        *i = *i + 1;
        let ghost vs = view_lines(v@);
        assert(vs.skip(*old(i) as int) =~= seq![vs[*old(i) as int]] + vs.skip(*i as int));
        Some(p)
    } else {
        None
    }
}

impl Operation {
    /// The steps are canonical, every modification is well formed, and the two
    /// cached lengths are right.
    pub closed spec fn well_formed(&self) -> bool {
        &&& lcanonical(self@)
        &&& forall|k: int| 0 <= k < self.operations@.len() ==> lop_wf(#[trigger] self.operations@[k])
        &&& self.source_len as nat == lsrc_len(self@)
        &&& self.target_len as nat == ltgt_len(self@)
    }

    pub open spec fn src(&self) -> nat {
        lsrc_len(self@)
    }

    pub open spec fn tgt(&self) -> nat {
        ltgt_len(self@)
    }

    /// Every operation that the builder gives has no empty retain or delete
    /// and no two neighbouring retains or deletes.
    pub proof fn lemma_canonical(&self)
        requires
            self.well_formed(),
        ensures
            lcanonical(self@),
    {
    }

    proof fn lemma_wf_rest(&self)
        requires
            self.well_formed(),
        ensures
            lrest_wf(None, self.operations@, 0),
            l_nonzero(view_lines(self.operations@)),
            view_lines(self.operations@).skip(0) =~= self@,
    {
    }

    pub fn new() -> (r: Operation)
        ensures
            r.well_formed(),
            r@ == Seq::<LPrim>::empty(),
    {
        let r = Operation { operations: Vec::new(), source_len: 0, target_len: 0 };
        assert(r@ =~= Seq::<LPrim>::empty());
        r
    }

    pub fn source_len(&self) -> (r: usize)
        requires
            self.well_formed(),
        ensures
            r == self.src(),
    {
        self.source_len
    }

    pub fn target_len(&self) -> (r: usize)
        requires
            self.well_formed(),
        ensures
            r == self.tgt(),
    {
        self.target_len
    }

    /// Appends a step: a retain or delete is fused with one of its kind before
    /// it, one of zero lines is dropped.
    pub fn add(&mut self, op: LineOperation)
        requires
            old(self).well_formed(),
            lop_wf(op),
            old(self).src() + lprim_src(op@) <= usize::MAX,
            old(self).tgt() + lprim_tgt(op@) <= usize::MAX,
        ensures
            final(self).well_formed(),
            final(self)@ == push_line(old(self)@, op@),
    {
        proof {
            lemma_llen_push_line(self@, op@);
            lemma_lcanonical_push_line(self@, op@);
        }
        let ghost ops = self@;
        let n = self.operations.len();
        proof {
            if n > 0 {
                assert(ops =~= ops.drop_last().push(ops.last()));
                lemma_llen_push(ops.drop_last(), ops.last());
            }
        }
        match op {
            LineOperation::Retain(len) => {
                if len == 0 {
                    return;
                }
                self.source_len = self.source_len + len;
                self.target_len = self.target_len + len;
                if n > 0 {
                    if let LineOperation::Retain(l) = self.operations[n - 1] {
                        self.operations.set(n - 1, LineOperation::Retain(l + len));
                        assert(self@ =~= push_line(ops, op@));
                        return;
                    }
                }
                self.operations.push(LineOperation::Retain(len));
                assert(self@ =~= push_line(ops, op@));
            },
            LineOperation::Delete(len) => {
                if len == 0 {
                    return;
                }
                self.source_len = self.source_len + len;
                if n > 0 {
                    if let LineOperation::Delete(l) = self.operations[n - 1] {
                        self.operations.set(n - 1, LineOperation::Delete(l + len));
                        assert(self@ =~= push_line(ops, op@));
                        return;
                    }
                }
                self.operations.push(LineOperation::Delete(len));
                assert(self@ =~= push_line(ops, op@));
            },
            LineOperation::Modify(c) => {
                self.source_len = self.source_len + 1;
                self.target_len = self.target_len + 1;
                self.operations.push(LineOperation::Modify(c));
                assert(self@ =~= push_line(ops, op@));
            },
            LineOperation::Insert(t) => {
                self.target_len = self.target_len + 1;
                self.operations.push(LineOperation::Insert(t));
                assert(self@ =~= push_line(ops, op@));
            },
        }
    }

    /// Appends `Retain(len)`; `len` counts lines.
    pub fn retain(&mut self, len: usize) -> (r: &mut Self)
        requires
            old(self).well_formed(),
            old(self).src() + len <= usize::MAX,
            old(self).tgt() + len <= usize::MAX,
        ensures
            r.well_formed(),
            r@ == push_line(old(self)@, LPrim::Retain(len as nat)),
            *final(self) == *final(r),
    {
        self.add(LineOperation::Retain(len));
        self
    }

    /// Appends `Insert(s)`: a new line.
    pub fn insert(&mut self, s: String) -> (r: &mut Self)
        requires
            old(self).well_formed(),
            old(self).tgt() + 1 <= usize::MAX,
        ensures
            r.well_formed(),
            r@ == push_line(old(self)@, LPrim::Insert(bytes_of(s@))),
            *final(self) == *final(r),
    {
        let b = string_bytes(&s);
        self.add(LineOperation::Insert(b));
        self
    }

    /// Appends `Insert(b)`: a new line with the bytes `b`.
    pub fn insert_bytes(&mut self, b: Vec<u8>) -> (r: &mut Self)
        requires
            old(self).well_formed(),
            old(self).tgt() + 1 <= usize::MAX,
        ensures
            r.well_formed(),
            r@ == push_line(old(self)@, LPrim::Insert(b@)),
            *final(self) == *final(r),
    {
        self.add(LineOperation::Insert(b));
        self
    }

    /// A copy of the steps, in order.
    pub fn steps(&self) -> (r: Vec<LineOperation>)
        requires
            self.well_formed(),
        ensures
            view_lines(r@) == self@,
    {
        self.copy().operations
    }

    /// Appends `Delete(len)`; `len` counts lines.
    pub fn delete(&mut self, len: usize) -> (r: &mut Self)
        requires
            old(self).well_formed(),
            old(self).src() + len <= usize::MAX,
        ensures
            r.well_formed(),
            r@ == push_line(old(self)@, LPrim::Delete(len as nat)),
            *final(self) == *final(r),
    {
        self.add(LineOperation::Delete(len));
        self
    }

    /// Appends `Modify(op)`: the next line is rewritten by `op`.
    pub fn modify(&mut self, op: charwise::Operation) -> (r: &mut Self)
        requires
            old(self).well_formed(),
            op.well_formed(),
            old(self).src() + 1 <= usize::MAX,
            old(self).tgt() + 1 <= usize::MAX,
        ensures
            r.well_formed(),
            r@ == push_line(old(self)@, LPrim::Modify(op@)),
            *final(self) == *final(r),
    {
        self.add(LineOperation::Modify(op));
        self
    }

    /// The steps, for a reader that walks them.
    pub(crate) fn operations_ref(&self) -> (r: &Vec<LineOperation>)
        requires
            self.well_formed(),
        ensures
            view_lines(r@) == self@,
            forall|j: int| 0 <= j < r@.len() ==> lop_wf(#[trigger] r@[j]),
    {
        &self.operations
    }

    /// A copy of this operation.
    pub fn copy(&self) -> (r: Operation)
        requires
            self.well_formed(),
        ensures
            r.well_formed(),
            r@ == self@,
    {
        let mut v: Vec<LineOperation> = Vec::new();
        let mut i: usize = 0;
        while i < self.operations.len()
            invariant
                self.well_formed(),
                i <= self.operations@.len(),
                view_lines(v@) =~= view_lines(self.operations@).take(i as int),
                forall|k: int| 0 <= k < v@.len() ==> lop_wf(#[trigger] v@[k]),
            decreases self.operations@.len() - i,
        {
            let c = self.operations[i].copy();
            let ghost v0 = v@;
            v.push(c);
            assert(v@ == v0.push(c));
            assert(view_lines(v@) =~= view_lines(v0).push(c@));
            assert(view_lines(self.operations@)[i as int] == c@);
            i = i + 1;
            assert(view_lines(v@) =~= view_lines(self.operations@).take(i as int));
        }
        assert(view_lines(self.operations@).take(i as int) =~= view_lines(self.operations@));
        Operation { operations: v, source_len: self.source_len, target_len: self.target_len }
    }

    /// The operation that leaves `n` lines as they are.
    pub fn nop_of_len(n: usize) -> (r: Operation)
        ensures
            r.well_formed(),
            r@ == push_line(Seq::empty(), LPrim::Retain(n as nat)),
            r.src() == n,
            r.tgt() == n,
    {
        let mut r = Operation::new();
        proof {
            lemma_llen_push_line(r@, LPrim::Retain(n as nat));
        }
        r.add(LineOperation::Retain(n));
        r
    }
}



/// Whether each modification of `operation` meets a line of `lines` of the
/// length it reads.
pub fn fits_lines(lines: &[String], operation: &Operation) -> (r: bool)
    requires
        operation.well_formed(),
        lines@.len() == operation.src(),
    ensures
        r == line_fits(operation@, lines_bytes(lines@)),
{
    let ghost s = lines_bytes(lines@);
    let mut pos: usize = 0;
    let mut k: usize = 0;
    let n = operation.operations.len();
    let sl = lines.len();
    proof {
        assert(operation@.skip(0) =~= operation@);
        assert(s.skip(0) =~= s);
    }
    while k < n
        invariant
            n == operation.operations@.len(),
            sl == lines@.len(),
            s == lines_bytes(lines@),
            operation.well_formed(),
            lines@.len() == operation.src(),
            k <= n,
            pos <= s.len(),
            lsrc_len(operation@.skip(k as int)) == s.len() - pos,
            line_fits(operation@.skip(k as int), s.skip(pos as int)) == line_fits(operation@, s),
        decreases n - k,
    {
        let ghost rest = operation@.skip(k as int);
        proof {
            assert(rest[0] == operation.operations@[k as int]@);
            assert(rest.drop_first() =~= operation@.skip(k + 1));
            assert(lop_wf(operation.operations@[k as int]));
        }
        match &operation.operations[k] {
            LineOperation::Retain(len) => {
                proof {
                    assert(s.skip(pos as int).skip(*len as int) =~= s.skip(pos + *len));
                }
                pos = pos + *len;
            },
            LineOperation::Insert(_) => {},
            LineOperation::Delete(len) => {
                proof {
                    assert(s.skip(pos as int).skip(*len as int) =~= s.skip(pos + *len));
                }
                pos = pos + *len;
            },
            LineOperation::Modify(c) => {
                let lb = string_bytes(&lines[pos]);
                proof {
                    assert(lb@ == s.skip(pos as int)[0]);
                    assert(s.skip(pos as int).skip(1) =~= s.skip(pos + 1));
                }
                if lb.len() != c.source_len() {
                    return false;
                }
                pos = pos + 1;
            },
        }
        k = k + 1;
    }
    proof {
        assert(operation@.skip(n as int) =~= Seq::<LPrim>::empty());
    }
    true
}

proof fn lemma_push_text(out: Seq<String>, outb: Seq<Seq<u8>>, line: String, b: Seq<u8>)
    requires
        out.map_values(|s: String| s@) == lines_text(outb),
        line@ == text_of(b),
    ensures
        out.push(line).map_values(|s: String| s@) == lines_text(outb.push(b)),
{
    assert(out.push(line).map_values(|s: String| s@) =~= out.map_values(|s: String| s@).push(line@));
    assert(lines_text(outb.push(b)) =~= lines_text(outb).push(text_of(b)));
}

/// The lines that `operation` makes of `lines`; each modification must meet a
/// line of the length it reads.
#[verifier::rlimit(100)]
#[verifier::spinoff_prover]
pub fn apply(lines: &[String], operation: &Operation) -> (r: Vec<String>)
    requires
        operation.well_formed(),
        lines@.len() == operation.src(),
        line_fits(operation@, lines_bytes(lines@)),
    ensures
        r@.map_values(|s: String| s@) == lines_text(apply_lines(operation@, lines_bytes(lines@))),
{
    let ghost src = lines_bytes(lines@);
    let mut out: Vec<String> = Vec::new();
    let ghost mut outb: Seq<Seq<u8>> = Seq::empty();
    let mut pos: usize = 0;
    let mut k: usize = 0;
    let n = operation.operations.len();
    let sl = lines.len();
    proof {
        assert(operation@.skip(0) =~= operation@);
        assert(src.skip(0) =~= src);
    }
    while k < n
        invariant
            n == operation.operations@.len(),
            sl == lines@.len(),
            src == lines_bytes(lines@),
            operation.well_formed(),
            lines@.len() == operation.src(),
            k <= n,
            pos <= src.len(),
            lsrc_len(operation@.skip(k as int)) == src.len() - pos,
            outb + apply_lines(operation@.skip(k as int), src.skip(pos as int)) == apply_lines(operation@, src),
            out@.map_values(|s: String| s@) == lines_text(outb),
        decreases n - k,
    {
        let ghost rest = operation@.skip(k as int);
        let ghost s = src.skip(pos as int);
        proof {
            assert(rest[0] == operation.operations@[k as int]@);
            assert(rest.drop_first() =~= operation@.skip(k + 1));
            assert(lop_wf(operation.operations@[k as int]));
        }
        match &operation.operations[k] {
            LineOperation::Retain(len) => {
                let ghost before = outb;
                let mut i: usize = 0;
                while i < *len
                    invariant
                        sl == lines@.len(),
                        src == lines_bytes(lines@),
                        pos + *len <= src.len(),
                        i <= *len,
                        outb == before + src.subrange(pos as int, pos + i),
                        out@.map_values(|s: String| s@) == lines_text(outb),
                    decreases *len - i,
                {
                    let line = lines[pos + i].clone();
                    proof {
                        lemma_text_of_bytes(lines@[pos + i]@);
                    }
                    let ghost o0 = out@;
                    let ghost ob0 = outb;
                    out.push(line);
                    proof {
                        assert(src[pos + i] == bytes_of(lines@[pos + i]@));
                        lemma_push_text(o0, ob0, line, src[pos + i]);
                        outb = outb.push(src[pos + i]);
                    }
                    i = i + 1;
                    assert(outb =~= before + src.subrange(pos as int, pos + i));
                }
                proof {
                    assert(src.subrange(pos as int, pos + *len) =~= s.take(*len as int));
                    assert(s.skip(*len as int) =~= src.skip(pos + *len));
                    assert(outb + apply_lines(operation@.skip(k + 1), src.skip(pos + *len)) =~= before
                        + apply_lines(rest, s));
                }
                pos = pos + *len;
            },
            LineOperation::Insert(t) => {
                let line = string_from_bytes(t.as_slice());
                let ghost before = outb;
                proof {
                    lemma_push_text(out@, outb, line, t@);
                }
                out.push(line);
                proof {
                    outb = outb.push(t@);
                    assert(outb + apply_lines(operation@.skip(k + 1), s) =~= before + apply_lines(rest, s));
                }
            },
            LineOperation::Delete(len) => {
                proof {
                    assert(s.skip(*len as int) =~= src.skip(pos + *len));
                }
                pos = pos + *len;
            },
            LineOperation::Modify(c) => {
                let ghost before = outb;
                let lb = string_bytes(&lines[pos]);
                proof {
                    assert(lb@ == s[0]);
                    lemma_text_of_bytes(lines@[pos as int]@);
                }
                if lb.len() == c.source_len() {
                    let nb = c.apply_to_bytes(lb.as_slice());
                    let line = string_from_bytes(nb.as_slice());
                    proof {
                        lemma_push_text(out@, outb, line, nb@);
                    }
                    out.push(line);
                    proof {
                        outb = outb.push(nb@);
                    }
                } else {
                    let line = lines[pos].clone();
                    proof {
                        lemma_push_text(out@, outb, line, lb@);
                    }
                    out.push(line);
                    proof {
                        outb = outb.push(lb@);
                    }
                }
                proof {
                    assert(s.skip(1) =~= src.skip(pos + 1));
                    assert(outb + apply_lines(operation@.skip(k + 1), src.skip(pos + 1)) =~= before + apply_lines(rest, s));
                }
                pos = pos + 1;
            },
        }
        k = k + 1;
    }
    proof {
        assert(operation@.skip(n as int) =~= Seq::<LPrim>::empty());
        assert(outb =~= apply_lines(operation@, src));
    }
    out
}


/// The head of a stream after one line of it, a retain or a delete, is read.
fn drop_one_line(p: LineOperation, v: &Vec<LineOperation>, i: &mut usize) -> (r: Option<LineOperation>)
    requires
        *old(i) <= v@.len(),
        lrest_wf(None, v@, *old(i) as int),
        p is Retain || p is Delete,
        lprim_src(p@) > 0,
    ensures
        *final(i) <= v@.len(),
        *final(i) < v@.len() ==> r is Some,
        lrest_of(r, v@, *final(i) as int) =~= drop_one(seq![p@] + view_lines(v@).skip(*old(i) as int)),
        lrest_wf(r, v@, *final(i) as int),
        r is Some && *final(i) == *old(i) ==> l_nonzero(seq![r->0@]),
{
    let ghost whole = seq![p@] + view_lines(v@).skip(*old(i) as int);
    match p {
        LineOperation::Retain(n) => if n <= 1 {
            assert(whole.drop_first() =~= view_lines(v@).skip(*old(i) as int));
            next_line(v, i)
        } else {
            let r = Some(LineOperation::Retain(n - 1));
            assert(lrest_of(r, v@, *i as int) =~= whole.update(0, shorten(whole[0], 1)));
            r
        },
        LineOperation::Delete(n) => if n <= 1 {
            assert(whole.drop_first() =~= view_lines(v@).skip(*old(i) as int));
            next_line(v, i)
        } else {
            let r = Some(LineOperation::Delete(n - 1));
            assert(lrest_of(r, v@, *i as int) =~= whole.update(0, shorten(whole[0], 1)));
            r
        },
        _ => None,
    }
}

/// The operation that does what `first` does and then what `second` does.
#[verifier::rlimit(100)]
#[verifier::spinoff_prover]
pub fn compose(first: Operation, second: Operation) -> (r: Operation)
    requires
        first.well_formed(),
        second.well_formed(),
        first.tgt() == second.src(),
    ensures
        r.well_formed(),
        r@ == compose_lines(first@, second@),
        r.src() == first.src(),
        r.tgt() == second.tgt(),
{
    let va = &first.operations;
    let vb = &second.operations;
    let mut ia: usize = 0;
    let mut ib: usize = 0;
    proof {
        first.lemma_wf_rest();
        second.lemma_wf_rest();
    }
    let mut ha = next_line(va, &mut ia);
    let mut hb = next_line(vb, &mut ib);
    let mut ret = Operation::new();
    proof {
        lemma_lrest_nonzero(ha, va@, ia as int);
        lemma_lrest_nonzero(hb, vb@, ib as int);
    }
    while ha.is_some() || hb.is_some()
        invariant
            ia <= va@.len(),
            ib <= vb@.len(),
            ha is None ==> ia == va@.len(),
            hb is None ==> ib == vb@.len(),
            first.well_formed(),
            second.well_formed(),
            ret.well_formed(),
            lrest_wf(ha, va@, ia as int),
            lrest_wf(hb, vb@, ib as int),
            l_nonzero(view_lines(va@)),
            l_nonzero(view_lines(vb@)),
            l_nonzero(lrest_of(ha, va@, ia as int)),
            l_nonzero(lrest_of(hb, vb@, ib as int)),
            compose_lines_from(ret@, lrest_of(ha, va@, ia as int), lrest_of(hb, vb@, ib as int))
                == compose_lines(first@, second@),
            lsrc_len(ret@) + lsrc_len(lrest_of(ha, va@, ia as int)) == first.src(),
            ltgt_len(ret@) + ltgt_len(lrest_of(hb, vb@, ib as int)) == second.tgt(),
            ltgt_len(lrest_of(ha, va@, ia as int)) == lsrc_len(lrest_of(hb, vb@, ib as int)),
        decreases lrest_of(ha, va@, ia as int).len() + lrest_of(hb, vb@, ib as int).len(),
    {
        let ghost ra = lrest_of(ha, va@, ia as int);
        let ghost rb = lrest_of(hb, vb@, ib as int);
        proof {
            lemma_lrest_of(ha, va@, ia as int);
            lemma_lrest_of(hb, vb@, ib as int);
        }
        let cur_a = ha;
        let cur_b = hb;
        match cur_a {
            None => {
                let pb = cur_b.unwrap();
                proof { lemma_llen_push_line(ret@, pb@); }
                ha = None;
                hb = next_line(vb, &mut ib);
                ret.add(pb);
            },
            Some(pa) => match cur_b {
                None => {
                    proof { lemma_llen_push_line(ret@, pa@); }
                    ha = next_line(va, &mut ia);
                    hb = None;
                    ret.add(pa);
                },
                Some(pb) => match (pa, pb) {
                    (LineOperation::Delete(n), pb) => {
                        proof { lemma_llen_push_line(ret@, LPrim::Delete(n as nat)); }
                        ha = next_line(va, &mut ia);
                        hb = Some(pb);
                        ret.add(LineOperation::Delete(n));
                    },
                    (pa, LineOperation::Insert(t)) => {
                        proof { lemma_llen_push_line(ret@, LPrim::Insert(t@)); }
                        ha = Some(pa);
                        hb = next_line(vb, &mut ib);
                        ret.add(LineOperation::Insert(t));
                    },
                    (LineOperation::Retain(x), LineOperation::Retain(y)) => {
                        if x < y {
                            proof { lemma_llen_push_line(ret@, LPrim::Retain(x as nat)); }
                            ha = next_line(va, &mut ia);
                            hb = Some(LineOperation::Retain(y - x));
                            ret.add(LineOperation::Retain(x));
                            assert(lrest_of(hb, vb@, ib as int) =~= rb.update(0, LPrim::Retain((y - x) as nat)));
                        } else if x == y {
                            proof { lemma_llen_push_line(ret@, LPrim::Retain(x as nat)); }
                            ha = next_line(va, &mut ia);
                            hb = next_line(vb, &mut ib);
                            ret.add(LineOperation::Retain(x));
                        } else {
                            proof { lemma_llen_push_line(ret@, LPrim::Retain(y as nat)); }
                            ha = Some(LineOperation::Retain(x - y));
                            hb = next_line(vb, &mut ib);
                            ret.add(LineOperation::Retain(y));
                            assert(lrest_of(ha, va@, ia as int) =~= ra.update(0, LPrim::Retain((x - y) as nat)));
                        }
                    },
                    (LineOperation::Retain(x), LineOperation::Delete(y)) => {
                        if x < y {
                            proof { lemma_llen_push_line(ret@, LPrim::Delete(x as nat)); }
                            ha = next_line(va, &mut ia);
                            hb = Some(LineOperation::Delete(y - x));
                            ret.add(LineOperation::Delete(x));
                            assert(lrest_of(hb, vb@, ib as int) =~= rb.update(0, LPrim::Delete((y - x) as nat)));
                        } else if x == y {
                            proof { lemma_llen_push_line(ret@, LPrim::Delete(x as nat)); }
                            ha = next_line(va, &mut ia);
                            hb = next_line(vb, &mut ib);
                            ret.add(LineOperation::Delete(x));
                        } else {
                            proof { lemma_llen_push_line(ret@, LPrim::Delete(y as nat)); }
                            ha = Some(LineOperation::Retain(x - y));
                            hb = next_line(vb, &mut ib);
                            ret.add(LineOperation::Delete(y));
                            assert(lrest_of(ha, va@, ia as int) =~= ra.update(0, LPrim::Retain((x - y) as nat)));
                        }
                    },
                    (LineOperation::Retain(x), LineOperation::Modify(c)) => {
                        proof { lemma_llen_push_line(ret@, LPrim::Modify(c@)); }
                        ha = drop_one_line(LineOperation::Retain(x), va, &mut ia);
                        hb = next_line(vb, &mut ib);
                        ret.add(LineOperation::Modify(c));
                    },
                    (LineOperation::Insert(_), LineOperation::Delete(y)) => {
                        ha = next_line(va, &mut ia);
                        hb = drop_one_line(LineOperation::Delete(y), vb, &mut ib);
                    },
                    (LineOperation::Insert(t), LineOperation::Retain(y)) => {
                        proof { lemma_llen_push_line(ret@, LPrim::Insert(t@)); }
                        ha = next_line(va, &mut ia);
                        hb = drop_one_line(LineOperation::Retain(y), vb, &mut ib);
                        ret.add(LineOperation::Insert(t));
                    },
                    (LineOperation::Insert(t), LineOperation::Modify(c)) => {
                        let nt = if t.len() == c.source_len() {
                            c.apply_to_bytes(t.as_slice())
                        } else {
                            t
                        };
                        proof { lemma_llen_push_line(ret@, LPrim::Insert(nt@)); }
                        ha = next_line(va, &mut ia);
                        hb = next_line(vb, &mut ib);
                        ret.add(LineOperation::Insert(nt));
                    },
                    (LineOperation::Modify(c), LineOperation::Retain(y)) => {
                        proof { lemma_llen_push_line(ret@, LPrim::Modify(c@)); }
                        ha = next_line(va, &mut ia);
                        hb = drop_one_line(LineOperation::Retain(y), vb, &mut ib);
                        ret.add(LineOperation::Modify(c));
                    },
                    (LineOperation::Modify(_), LineOperation::Delete(y)) => {
                        proof { lemma_llen_push_line(ret@, LPrim::Delete(1)); }
                        ha = next_line(va, &mut ia);
                        hb = drop_one_line(LineOperation::Delete(y), vb, &mut ib);
                        ret.add(LineOperation::Delete(1));
                    },
                    (LineOperation::Modify(c), LineOperation::Modify(d)) => {
                        let m = if c.target_len() == d.source_len() {
                            c.compose(d)
                        } else {
                            c
                        };
                        proof { lemma_llen_push_line(ret@, LPrim::Modify(m@)); }
                        ha = next_line(va, &mut ia);
                        hb = next_line(vb, &mut ib);
                        ret.add(LineOperation::Modify(m));
                    },
                },
            },
        }
        proof {
            lemma_lrest_of(ha, va@, ia as int);
            lemma_lrest_of(hb, vb@, ib as int);
            lemma_lrest_nonzero(ha, va@, ia as int);
            lemma_lrest_nonzero(hb, vb@, ib as int);
        }
    }
    ret
}


/// The pair `(left', right')` for concurrent `left` and `right`: `left'`
/// applies after `right`, `right'` after `left`. At equal positions the left
/// insertion comes first.
#[verifier::rlimit(100)]
#[verifier::spinoff_prover]
pub fn transform(left: Operation, right: Operation) -> (r: (Operation, Operation))
    requires
        left.well_formed(),
        right.well_formed(),
        left.src() == right.src(),
        left.tgt() + right.tgt() <= usize::MAX,
    ensures
        r.0.well_formed(),
        r.1.well_formed(),
        (r.0@, r.1@) == transform_lines(left@, right@),
        r.0.src() == right.tgt(),
        r.1.src() == left.tgt(),
        r.0.tgt() == r.1.tgt(),
{
    let va = &left.operations;
    let vb = &right.operations;
    let mut ia: usize = 0;
    let mut ib: usize = 0;
    proof {
        left.lemma_wf_rest();
        right.lemma_wf_rest();
    }
    let mut ha = next_line(va, &mut ia);
    let mut hb = next_line(vb, &mut ib);
    let mut la = Operation::new();
    let mut lb = Operation::new();
    proof {
        lemma_lrest_nonzero(ha, va@, ia as int);
        lemma_lrest_nonzero(hb, vb@, ib as int);
    }
    while ha.is_some() || hb.is_some()
        invariant
            ia <= va@.len(),
            ib <= vb@.len(),
            ha is None ==> ia == va@.len(),
            hb is None ==> ib == vb@.len(),
            left.well_formed(),
            right.well_formed(),
            left.tgt() + right.tgt() <= usize::MAX,
            la.well_formed(),
            lb.well_formed(),
            lrest_wf(ha, va@, ia as int),
            lrest_wf(hb, vb@, ib as int),
            l_nonzero(view_lines(va@)),
            l_nonzero(view_lines(vb@)),
            l_nonzero(lrest_of(ha, va@, ia as int)),
            l_nonzero(lrest_of(hb, vb@, ib as int)),
            transform_lines_from(la@, lb@, lrest_of(ha, va@, ia as int), lrest_of(hb, vb@, ib as int))
                == transform_lines(left@, right@),
            lsrc_len(lrest_of(ha, va@, ia as int)) == lsrc_len(lrest_of(hb, vb@, ib as int)),
            lsrc_len(la@) + ltgt_len(lrest_of(hb, vb@, ib as int)) == right.tgt(),
            lsrc_len(lb@) + ltgt_len(lrest_of(ha, va@, ia as int)) == left.tgt(),
            ltgt_len(la@) == ltgt_len(lb@),
            ltgt_len(la@) + ltgt_len(lrest_of(ha, va@, ia as int)) + ltgt_len(lrest_of(hb, vb@, ib as int))
                <= left.tgt() + right.tgt(),
        decreases lrest_of(ha, va@, ia as int).len() + lrest_of(hb, vb@, ib as int).len(),
    {
        let ghost ra = lrest_of(ha, va@, ia as int);
        let ghost rb = lrest_of(hb, vb@, ib as int);
        proof {
            lemma_lrest_of(ha, va@, ia as int);
            lemma_lrest_of(hb, vb@, ib as int);
        }
        let cur_a = ha;
        let cur_b = hb;
        if cur_a.is_some() && matches!(cur_a, Some(LineOperation::Insert(_))) {
            let pa = cur_a.unwrap();
            proof {
                lemma_llen_push_line(la@, pa@);
                lemma_llen_push_line(lb@, LPrim::Retain(1));
            }
            lb.add(LineOperation::Retain(1));
            la.add(pa);
            ha = next_line(va, &mut ia);
            hb = cur_b;
        } else if cur_b.is_some() && matches!(cur_b, Some(LineOperation::Insert(_))) {
            let pb = cur_b.unwrap();
            proof {
                lemma_llen_push_line(la@, LPrim::Retain(1));
                lemma_llen_push_line(lb@, pb@);
            }
            la.add(LineOperation::Retain(1));
            lb.add(pb);
            ha = cur_a;
            hb = next_line(vb, &mut ib);
        } else if cur_a.is_none() || cur_b.is_none() {
            proof {
                if ra.len() > 0 {
                    lemma_lsrc_positive(ra);
                }
                if rb.len() > 0 {
                    lemma_lsrc_positive(rb);
                }
            }
            ha = None;
            hb = None;
        } else {
            let pa = cur_a.unwrap();
            let pb = cur_b.unwrap();
            match (pa, pb) {
                (LineOperation::Retain(x), LineOperation::Retain(y)) => {
                    let m = if x < y { x } else { y };
                    proof {
                        lemma_llen_push_line(la@, LPrim::Retain(m as nat));
                        lemma_llen_push_line(lb@, LPrim::Retain(m as nat));
                    }
                    la.add(LineOperation::Retain(m));
                    lb.add(LineOperation::Retain(m));
                    if x < y {
                        ha = next_line(va, &mut ia);
                        hb = Some(LineOperation::Retain(y - x));
                        assert(lrest_of(hb, vb@, ib as int) =~= rb.update(0, LPrim::Retain((y - x) as nat)));
                    } else if x == y {
                        ha = next_line(va, &mut ia);
                        hb = next_line(vb, &mut ib);
                    } else {
                        ha = Some(LineOperation::Retain(x - y));
                        hb = next_line(vb, &mut ib);
                        assert(lrest_of(ha, va@, ia as int) =~= ra.update(0, LPrim::Retain((x - y) as nat)));
                    }
                },
                (LineOperation::Delete(x), LineOperation::Delete(y)) => {
                    if x < y {
                        ha = next_line(va, &mut ia);
                        hb = Some(LineOperation::Delete(y - x));
                        assert(lrest_of(hb, vb@, ib as int) =~= rb.update(0, LPrim::Delete((y - x) as nat)));
                    } else if x == y {
                        ha = next_line(va, &mut ia);
                        hb = next_line(vb, &mut ib);
                    } else {
                        ha = Some(LineOperation::Delete(x - y));
                        hb = next_line(vb, &mut ib);
                        assert(lrest_of(ha, va@, ia as int) =~= ra.update(0, LPrim::Delete((x - y) as nat)));
                    }
                },
                (LineOperation::Modify(c), LineOperation::Modify(d)) => {
                    if c.source_len() == d.source_len() && c.target_len() <= usize::MAX - d.target_len() {
                        let (c2, d2) = c.transform(d);
                        proof {
                            lemma_llen_push_line(la@, LPrim::Modify(c2@));
                            lemma_llen_push_line(lb@, LPrim::Modify(d2@));
                        }
                        la.add(LineOperation::Modify(c2));
                        lb.add(LineOperation::Modify(d2));
                    } else {
                        proof {
                            lemma_llen_push_line(la@, LPrim::Modify(c@));
                            lemma_llen_push_line(lb@, LPrim::Modify(d@));
                        }
                        la.add(LineOperation::Modify(c));
                        lb.add(LineOperation::Modify(d));
                    }
                    ha = next_line(va, &mut ia);
                    hb = next_line(vb, &mut ib);
                },
                (LineOperation::Retain(x), LineOperation::Delete(y)) => {
                    let m = if x < y { x } else { y };
                    proof {
                        lemma_llen_push_line(lb@, LPrim::Delete(m as nat));
                    }
                    lb.add(LineOperation::Delete(m));
                    if x < y {
                        ha = next_line(va, &mut ia);
                        hb = Some(LineOperation::Delete(y - x));
                        assert(lrest_of(hb, vb@, ib as int) =~= rb.update(0, LPrim::Delete((y - x) as nat)));
                    } else if x == y {
                        ha = next_line(va, &mut ia);
                        hb = next_line(vb, &mut ib);
                    } else {
                        ha = Some(LineOperation::Retain(x - y));
                        hb = next_line(vb, &mut ib);
                        assert(lrest_of(ha, va@, ia as int) =~= ra.update(0, LPrim::Retain((x - y) as nat)));
                    }
                },
                (LineOperation::Delete(x), LineOperation::Retain(y)) => {
                    let m = if x < y { x } else { y };
                    proof {
                        lemma_llen_push_line(la@, LPrim::Delete(m as nat));
                    }
                    la.add(LineOperation::Delete(m));
                    if x < y {
                        ha = next_line(va, &mut ia);
                        hb = Some(LineOperation::Retain(y - x));
                        assert(lrest_of(hb, vb@, ib as int) =~= rb.update(0, LPrim::Retain((y - x) as nat)));
                    } else if x == y {
                        ha = next_line(va, &mut ia);
                        hb = next_line(vb, &mut ib);
                    } else {
                        ha = Some(LineOperation::Delete(x - y));
                        hb = next_line(vb, &mut ib);
                        assert(lrest_of(ha, va@, ia as int) =~= ra.update(0, LPrim::Delete((x - y) as nat)));
                    }
                },
                (LineOperation::Modify(c), LineOperation::Retain(y)) => {
                    proof {
                        lemma_llen_push_line(la@, LPrim::Modify(c@));
                        lemma_llen_push_line(lb@, LPrim::Retain(1));
                    }
                    la.add(LineOperation::Modify(c));
                    lb.add(LineOperation::Retain(1));
                    ha = next_line(va, &mut ia);
                    hb = drop_one_line(LineOperation::Retain(y), vb, &mut ib);
                },
                (LineOperation::Retain(x), LineOperation::Modify(d)) => {
                    proof {
                        lemma_llen_push_line(la@, LPrim::Retain(1));
                        lemma_llen_push_line(lb@, LPrim::Modify(d@));
                    }
                    la.add(LineOperation::Retain(1));
                    lb.add(LineOperation::Modify(d));
                    ha = drop_one_line(LineOperation::Retain(x), va, &mut ia);
                    hb = next_line(vb, &mut ib);
                },
                (LineOperation::Modify(_), LineOperation::Delete(y)) => {
                    proof {
                        lemma_llen_push_line(lb@, LPrim::Delete(1));
                    }
                    lb.add(LineOperation::Delete(1));
                    ha = next_line(va, &mut ia);
                    hb = drop_one_line(LineOperation::Delete(y), vb, &mut ib);
                },
                (LineOperation::Delete(x), LineOperation::Modify(_)) => {
                    proof {
                        lemma_llen_push_line(la@, LPrim::Delete(1));
                    }
                    la.add(LineOperation::Delete(1));
                    ha = drop_one_line(LineOperation::Delete(x), va, &mut ia);
                    hb = next_line(vb, &mut ib);
                },
                (pa, pb) => {
                    ha = Some(pa);
                    hb = Some(pb);
                },
            }
        }
        proof {
            lemma_lrest_of(ha, va@, ia as int);
            lemma_lrest_of(hb, vb@, ib as int);
            lemma_lrest_nonzero(ha, va@, ia as int);
            lemma_lrest_nonzero(hb, vb@, ib as int);
        }
    }
    (la, lb)
}

} // verus!

verus! {

/// The characters of each line.
pub open spec fn lines_content(v: Seq<String>) -> Seq<Seq<char>> {
    v.map_values(|s: String| s@)
}

/// The bytes of each line of a content.
pub open spec fn content_bytes(c: Seq<Seq<char>>) -> Seq<Seq<u8>> {
    c.map_values(|l: Seq<char>| bytes_of(l))
}

impl crate::Operation for Operation {
    type Target = Vec<String>;

    type Model = Seq<LPrim>;

    type Content = Seq<Seq<char>>;

    open spec fn op_model(&self) -> Seq<LPrim> {
        self@
    }

    open spec fn target_model(t: &Vec<String>) -> Seq<Seq<char>> {
        lines_content(t@)
    }

    open spec fn op_valid(&self) -> bool {
        self.well_formed()
    }

    open spec fn fits(op: Seq<LPrim>, c: Seq<Seq<char>>) -> bool {
        c.len() == lsrc_len(op) && line_fits(op, content_bytes(c))
    }

    open spec fn composable(a: Seq<LPrim>, b: Seq<LPrim>) -> bool {
        ltgt_len(a) == lsrc_len(b)
    }

    open spec fn transformable(a: Seq<LPrim>, b: Seq<LPrim>) -> bool {
        lsrc_len(a) == lsrc_len(b) && ltgt_len(a) + ltgt_len(b) <= usize::MAX
    }

    open spec fn apply_model(op: Seq<LPrim>, c: Seq<Seq<char>>) -> Seq<Seq<char>> {
        lines_text(apply_lines(op, content_bytes(c)))
    }

    open spec fn compose_model(a: Seq<LPrim>, b: Seq<LPrim>) -> Seq<LPrim> {
        compose_lines(a, b)
    }

    open spec fn transform_model(a: Seq<LPrim>, b: Seq<LPrim>) -> (Seq<LPrim>, Seq<LPrim>) {
        transform_lines(a, b)
    }

    open spec fn nop_model(c: Seq<Seq<char>>) -> Seq<LPrim> {
        push_line(Seq::empty(), LPrim::Retain(c.len()))
    }

    open spec fn empty_model() -> Seq<LPrim> {
        Seq::empty()
    }

    open spec fn empty_content() -> Seq<Seq<char>> {
        Seq::empty()
    }

    fn empty() -> (r: Self) {
        Operation::new()
    }

    fn empty_target() -> (r: Vec<String>) {
        let r: Vec<String> = Vec::new();
        assert(lines_content(r@) =~= Seq::<Seq<char>>::empty());
        r
    }

    fn copy_op(&self) -> (r: Self) {
        self.copy()
    }

    fn copy_target(t: &Vec<String>) -> (r: Vec<String>) {
        let mut r: Vec<String> = Vec::new();
        let mut i: usize = 0;
        while i < t.len()
            invariant
                i <= t@.len(),
                lines_content(r@) =~= lines_content(t@).take(i as int),
            decreases t@.len() - i,
        {
            let s = t[i].clone();
            let ghost r0 = r@;
            r.push(s);
            assert(lines_content(r@) =~= lines_content(r0).push(s@));
            i = i + 1;
        }
        assert(lines_content(t@).take(i as int) =~= lines_content(t@));
        r
    }

    fn nop(target: &Vec<String>) -> (r: Self) {
        Operation::nop_of_len(target.len())
    }

    fn fits_target(&self, target: &Vec<String>) -> (r: bool) {
        assert(lines_bytes(target@) =~= content_bytes(lines_content(target@)));
        target.len() == self.source_len() && fits_lines(target.as_slice(), self)
    }

    fn composes_with(&self, other: &Self) -> (r: bool) {
        self.target_len() == other.source_len()
    }

    fn transforms_with(&self, other: &Self) -> (r: bool) {
        self.source_len() == other.source_len() && self.target_len() <= usize::MAX - other.target_len()
    }

    fn apply(&self, target: &Vec<String>) -> (r: Vec<String>) {
        assert(lines_bytes(target@) =~= content_bytes(lines_content(target@)));
        let r = apply(target.as_slice(), self);
        assert(lines_content(r@) =~= r@.map_values(|s: String| s@));
        r
    }

    fn compose(self, other: Self) -> (r: Self) {
        compose(self, other)
    }

    fn transform(self, other: Self) -> (r: (Self, Self)) {
        transform(self, other)
    }
}

} // verus!
