//! The laws of the line-wise algebra.
use vstd::prelude::*;
use crate::charwise::{apply_bytes, src_len, tgt_len, compose_ops, lemma_apply_len};
use crate::charwise::{canonical, transform_ops};
use crate::charwise_laws::{lemma_compose_apply, lemma_transform_converges};
use crate::linewise::{LPrim, lprim_src, lprim_tgt, lsrc_len, ltgt_len, push_line, modify_line, apply_lines, compose_lines_from, compose_lines, drop_one, shorten, l_nonzero, lemma_llen_push, lemma_llen_push_line, lcanonical, lemma_lcanonical_push_line, transform_lines_from, transform_lines, char_transformable, line_fits};

verus! {

proof fn lemma_lunfold(s: Seq<LPrim>)
    ensures
        s.len() > 0 ==> lsrc_len(s) == lprim_src(s[0]) + lsrc_len(s.drop_first()),
        s.len() > 0 ==> ltgt_len(s) == lprim_tgt(s[0]) + ltgt_len(s.drop_first()),
{
}

proof fn lemma_lsingle_len(p: LPrim)
    ensures
        lsrc_len(seq![p]) == lprim_src(p),
        ltgt_len(seq![p]) == lprim_tgt(p),
{
    assert(seq![p].drop_first() =~= Seq::<LPrim>::empty());
    assert(lsrc_len(Seq::<LPrim>::empty()) == 0);
    assert(ltgt_len(Seq::<LPrim>::empty()) == 0);
}

/// Applying a line-wise operation to a source of its length gives a result of
/// its target length.
pub proof fn lemma_apply_lines_len(ops: Seq<LPrim>, s: Seq<Seq<u8>>)
    requires
        s.len() == lsrc_len(ops),
    ensures
        apply_lines(ops, s).len() == ltgt_len(ops),
    decreases ops.len(),
{
    if ops.len() > 0 {
        match ops[0] {
            LPrim::Retain(n) => lemma_apply_lines_len(ops.drop_first(), s.skip(n as int)),
            LPrim::Insert(_) => lemma_apply_lines_len(ops.drop_first(), s),
            LPrim::Delete(n) => lemma_apply_lines_len(ops.drop_first(), s.skip(n as int)),
            LPrim::Modify(_) => lemma_apply_lines_len(ops.drop_first(), s.skip(1)),
        }
    }
}

proof fn lemma_lapply_single(p: LPrim, u: Seq<Seq<u8>>)
    requires
        u.len() == lprim_src(p),
    ensures
        apply_lines(seq![p], u) == match p {
            LPrim::Retain(_) => u,
            LPrim::Insert(t) => seq![t],
            LPrim::Delete(_) => Seq::<Seq<u8>>::empty(),
            LPrim::Modify(c) => seq![modify_line(c, u[0])],
        },
{
    let s = seq![p];
    assert(s.drop_first() =~= Seq::<LPrim>::empty());
    match p {
        LPrim::Retain(n) => {
            assert(u.take(n as int) =~= u);
            assert(apply_lines(s, u) =~= u.take(n as int) + apply_lines(s.drop_first(), u.skip(n as int)));
        },
        LPrim::Insert(t) => {
            assert(apply_lines(s, u) =~= seq![t] + apply_lines(s.drop_first(), u));
        },
        LPrim::Delete(n) => {
            assert(apply_lines(s, u) == apply_lines(s.drop_first(), u.skip(n as int)));
        },
        LPrim::Modify(c) => {
            assert(apply_lines(s, u) =~= seq![modify_line(c, u[0])] + apply_lines(s.drop_first(), u.skip(1)));
        },
    }
}

proof fn lemma_lapply_concat(x: Seq<LPrim>, y: Seq<LPrim>, s: Seq<Seq<u8>>)
    requires
        s.len() == lsrc_len(x) + lsrc_len(y),
    ensures
        apply_lines(x + y, s) == apply_lines(x, s.take(lsrc_len(x) as int)) + apply_lines(
            y,
            s.skip(lsrc_len(x) as int),
        ),
    decreases x.len(),
{
    if x.len() == 0 {
        assert(x + y =~= y);
        assert(s.skip(0) =~= s);
        assert(apply_lines(x, s.take(0)) =~= Seq::<Seq<u8>>::empty());
    } else {
        let x1 = x.drop_first();
        let sx = lsrc_len(x) as int;
        assert((x + y)[0] == x[0]);
        assert((x + y).drop_first() =~= x1 + y);
        match x[0] {
            LPrim::Retain(n) => {
                let n = n as int;
                lemma_lapply_concat(x1, y, s.skip(n));
                assert(s.take(sx).take(n) =~= s.take(n));
                assert(s.take(sx).skip(n) =~= s.skip(n).take(lsrc_len(x1) as int));
                assert(s.skip(n).skip(lsrc_len(x1) as int) =~= s.skip(sx));
            },
            LPrim::Insert(_) => {
                lemma_lapply_concat(x1, y, s);
            },
            LPrim::Delete(n) => {
                let n = n as int;
                lemma_lapply_concat(x1, y, s.skip(n));
                assert(s.take(sx).skip(n) =~= s.skip(n).take(lsrc_len(x1) as int));
                assert(s.skip(n).skip(lsrc_len(x1) as int) =~= s.skip(sx));
            },
            LPrim::Modify(_) => {
                lemma_lapply_concat(x1, y, s.skip(1));
                assert(s.take(sx)[0] == s[0]);
                assert(s.take(sx).skip(1) =~= s.skip(1).take(lsrc_len(x1) as int));
                assert(s.skip(1).skip(lsrc_len(x1) as int) =~= s.skip(sx));
            },
        }
    }
}

proof fn lemma_lapply_push(acc: Seq<LPrim>, p: LPrim, s: Seq<Seq<u8>>)
    requires
        s.len() == lsrc_len(acc) + lprim_src(p),
    ensures
        apply_lines(push_line(acc, p), s) == apply_lines(acc, s.take(lsrc_len(acc) as int)) + apply_lines(
            seq![p],
            s.skip(lsrc_len(acc) as int),
        ),
{
    let sa = lsrc_len(acc) as int;
    let rest = s.skip(sa);
    lemma_lapply_single(p, rest);
    lemma_lsingle_len(p);
    let merging = acc.len() > 0 && ((p is Retain && acc.last() is Retain) || (p is Delete && acc.last() is Delete));
    if (p is Retain && p->Retain_0 == 0) || (p is Delete && p->Delete_0 == 0) {
        assert(s.take(sa) =~= s);
        assert(apply_lines(seq![p], rest) =~= Seq::<Seq<u8>>::empty());
    } else if merging {
        let init = acc.drop_last();
        let l = acc.last();
        let m = match p {
            LPrim::Retain(n) => LPrim::Retain(l->Retain_0 + n),
            _ => LPrim::Delete(l->Delete_0 + p->Delete_0),
        };
        assert(acc =~= init + seq![l]);
        assert(push_line(acc, p) =~= init + seq![m]);
        lemma_llen_push(init, l);
        assert(init.push(l) =~= acc);
        let si = lsrc_len(init) as int;
        lemma_lsingle_len(m);
        lemma_lsingle_len(l);
        lemma_lapply_concat(init, seq![m], s);
        lemma_lapply_concat(init, seq![l], s.take(sa));
        assert(s.take(sa).take(si) =~= s.take(si));
        let u = s.skip(si);
        lemma_lapply_single(m, u);
        lemma_lapply_single(l, s.take(sa).skip(si));
        assert(s.take(sa).skip(si) =~= u.take(lprim_src(l) as int));
        assert(rest =~= u.skip(lprim_src(l) as int));
        if p is Retain {
            assert(u =~= u.take(lprim_src(l) as int) + u.skip(lprim_src(l) as int));
        } else {
            assert(Seq::<Seq<u8>>::empty() + Seq::<Seq<u8>>::empty() =~= Seq::<Seq<u8>>::empty());
        }
    } else {
        assert(push_line(acc, p) =~= acc + seq![p]);
        lemma_lapply_concat(acc, seq![p], s);
    }
}


proof fn lemma_lcompose_step(
    acc: Seq<LPrim>,
    p: LPrim,
    a2: Seq<LPrim>,
    b2: Seq<LPrim>,
    s1: Seq<Seq<u8>>,
    s2: Seq<Seq<u8>>,
    k: int,
)
    requires
        s1.len() == lsrc_len(acc),
        0 <= k <= s2.len(),
        lprim_src(p) == k,
        apply_lines(compose_lines_from(push_line(acc, p), a2, b2), (s1 + s2.take(k)) + s2.skip(k)) == apply_lines(
            push_line(acc, p),
            s1 + s2.take(k),
        ) + apply_lines(b2, apply_lines(a2, s2.skip(k))),
    ensures
        apply_lines(compose_lines_from(push_line(acc, p), a2, b2), s1 + s2) == apply_lines(acc, s1) + apply_lines(
            seq![p],
            s2.take(k),
        ) + apply_lines(b2, apply_lines(a2, s2.skip(k))),
{
    assert((s1 + s2.take(k)) + s2.skip(k) =~= s1 + s2);
    lemma_llen_push(acc, p);
    lemma_lapply_push(acc, p, s1 + s2.take(k));
    assert((s1 + s2.take(k)).take(s1.len() as int) =~= s1);
    assert((s1 + s2.take(k)).skip(s1.len() as int) =~= s2.take(k));
}

/// The stream after one line of its head, a retain or delete of at least one line.
proof fn lemma_drop_one(s: Seq<LPrim>)
    requires
        s.len() > 0,
        s[0] is Retain || s[0] is Delete,
        lprim_src(s[0]) >= 1,
        l_nonzero(s),
    ensures
        lsrc_len(drop_one(s)) == lsrc_len(s) - 1,
        ltgt_len(drop_one(s)) == ltgt_len(s) - (if s[0] is Retain { 1int } else { 0int }),
        l_nonzero(drop_one(s)),
        drop_one(s).len() <= s.len(),
        lprim_src(s[0]) > 1 ==> drop_one(s) =~= seq![shorten(s[0], 1)] + s.drop_first(),
        lprim_src(s[0]) == 1 ==> drop_one(s) =~= s.drop_first(),
{
    lemma_lunfold(s);
    let d = drop_one(s);
    if lprim_src(s[0]) > 1 {
        assert(d.drop_first() =~= s.drop_first());
        lemma_lunfold(d);
        assert forall|k: int| 0 <= k < d.len() implies (#[trigger] d[k] is Retain ==> d[k]->Retain_0 > 0) && (d[k] is Delete
            ==> d[k]->Delete_0 > 0) by {
            if k > 0 {
                assert(d[k] == s[k]);
            }
        }
    } else {
        assert forall|k: int| 0 <= k < d.len() implies (#[trigger] d[k] is Retain ==> d[k]->Retain_0 > 0) && (d[k] is Delete
            ==> d[k]->Delete_0 > 0) by {
            assert(d[k] == s[k + 1]);
        }
    }
}


proof fn lemma_line_fits_unfold(ops: Seq<LPrim>, s: Seq<Seq<u8>>)
    requires
        ops.len() > 0,
        line_fits(ops, s),
    ensures
        ops[0] is Retain ==> line_fits(ops.drop_first(), s.skip(ops[0]->Retain_0 as int)),
        ops[0] is Insert ==> line_fits(ops.drop_first(), s),
        ops[0] is Delete ==> line_fits(ops.drop_first(), s.skip(ops[0]->Delete_0 as int)),
        ops[0] is Modify ==> s.len() > 0 && s[0].len() == src_len(ops[0]->Modify_0) && line_fits(ops.drop_first(), s.skip(1)),
{
}

proof fn lemma_l_nonzero_rest(s: Seq<LPrim>)
    requires
        l_nonzero(s),
        s.len() > 0,
    ensures
        l_nonzero(s.drop_first()),
{
    let s1 = s.drop_first();
    assert forall|j: int| 0 <= j < s1.len() implies (#[trigger] s1[j] is Retain ==> s1[j]->Retain_0 > 0) && (s1[j] is Delete
        ==> s1[j]->Delete_0 > 0) by {
        assert(s1[j] == s[j + 1]);
    }
}

/// Line-wise composition is sequencing, on lines that the first operation's
/// modifications fit.
#[verifier::rlimit(100)]
#[verifier::spinoff_prover]
proof fn lemma_lcompose_from(acc: Seq<LPrim>, a: Seq<LPrim>, b: Seq<LPrim>, s1: Seq<Seq<u8>>, s2: Seq<Seq<u8>>)
    requires
        s1.len() == lsrc_len(acc),
        s2.len() == lsrc_len(a),
        ltgt_len(a) == lsrc_len(b),
        l_nonzero(a),
        l_nonzero(b),
        line_fits(a, s2),
    ensures
        apply_lines(compose_lines_from(acc, a, b), s1 + s2) == apply_lines(acc, s1) + apply_lines(b, apply_lines(a, s2)),
    decreases a.len() + b.len(), 1int,
{
    lemma_lunfold(a);
    lemma_lunfold(b);
    let e = Seq::<Seq<u8>>::empty();
    if a.len() == 0 && b.len() == 0 {
        assert(s1 + s2 =~= s1);
        assert(apply_lines(b, apply_lines(a, s2)) =~= e);
    } else if a.len() == 0 {
        let p = b[0];
        let b1 = b.drop_first();
        let aa = apply_lines(a, s2);
        assert(aa =~= e);
        assert(s2 =~= e);
        assert(p is Insert);
        lemma_llen_push_line(acc, p);
        assert(l_nonzero(b1)) by {
            assert forall|k: int| 0 <= k < b1.len() implies (#[trigger] b1[k] is Retain ==> b1[k]->Retain_0 > 0) && (b1[k] is Delete
                ==> b1[k]->Delete_0 > 0) by {
                assert(b1[k] == b[k + 1]);
            }
        }
        lemma_lcompose_from(push_line(acc, p), a, b1, s1 + s2.take(0), s2.skip(0));
        lemma_lcompose_step(acc, p, a, b1, s1, s2, 0);
        lemma_lapply_single(p, s2.take(0));
        assert(s2.skip(0) =~= s2);
    } else if b.len() == 0 {
        let p = a[0];
        let a1 = a.drop_first();
        let k = lprim_src(p) as int;
        assert(p is Delete);
        lemma_llen_push_line(acc, p);
        lemma_line_fits_unfold(a, s2);
        assert(l_nonzero(a1)) by {
            assert forall|j: int| 0 <= j < a1.len() implies (#[trigger] a1[j] is Retain ==> a1[j]->Retain_0 > 0) && (a1[j] is Delete
                ==> a1[j]->Delete_0 > 0) by {
                assert(a1[j] == a[j + 1]);
            }
        }
        lemma_lcompose_from(push_line(acc, p), a1, b, s1 + s2.take(k), s2.skip(k));
        lemma_lcompose_step(acc, p, a1, b, s1, s2, k);
        lemma_lapply_single(p, s2.take(k));
        assert(apply_lines(b, apply_lines(a1, s2.skip(k))) =~= e);
        assert(apply_lines(b, apply_lines(a, s2)) =~= e);
    } else if a[0] is Delete {
            lemma_lcompose_delete_left(acc, a, b, s1, s2);
        } else if !(a[0] is Delete) && b[0] is Insert {
            lemma_lcompose_insert_right(acc, a, b, s1, s2);
        } else if a[0] is Retain && b[0] is Retain {
            lemma_lcompose_retain_retain(acc, a, b, s1, s2);
        } else if a[0] is Retain && b[0] is Delete {
            lemma_lcompose_retain_delete(acc, a, b, s1, s2);
        } else if a[0] is Retain && b[0] is Modify {
            lemma_lcompose_retain_modify(acc, a, b, s1, s2);
        } else if a[0] is Insert && b[0] is Delete {
            lemma_lcompose_insert_delete(acc, a, b, s1, s2);
        } else if a[0] is Insert && b[0] is Retain {
            lemma_lcompose_insert_retain(acc, a, b, s1, s2);
        } else if a[0] is Insert && b[0] is Modify {
            lemma_lcompose_insert_modify(acc, a, b, s1, s2);
        } else if a[0] is Modify && b[0] is Retain {
            lemma_lcompose_modify_retain(acc, a, b, s1, s2);
        } else if a[0] is Modify && b[0] is Delete {
            lemma_lcompose_modify_delete(acc, a, b, s1, s2);
        } else if a[0] is Modify && b[0] is Modify {
            lemma_lcompose_modify_modify(acc, a, b, s1, s2);
    }
}

#[verifier::rlimit(100)]
#[verifier::spinoff_prover]
proof fn lemma_lcompose_delete_left(acc: Seq<LPrim>, a: Seq<LPrim>, b: Seq<LPrim>, s1: Seq<Seq<u8>>, s2: Seq<Seq<u8>>)
    requires
        s1.len() == lsrc_len(acc),
        s2.len() == lsrc_len(a),
        ltgt_len(a) == lsrc_len(b),
        l_nonzero(a),
        l_nonzero(b),
        line_fits(a, s2),
        a.len() > 0,
        b.len() > 0,
        a[0] is Delete,
    ensures
        apply_lines(compose_lines_from(acc, a, b), s1 + s2) == apply_lines(acc, s1) + apply_lines(b, apply_lines(a, s2)),
    decreases a.len() + b.len(), 0int,
{
    lemma_lunfold(a);
    lemma_lunfold(b);
    let e = Seq::<Seq<u8>>::empty();
    let a1 = a.drop_first();
    let b1 = b.drop_first();
    lemma_line_fits_unfold(a, s2);
    lemma_l_nonzero_rest(a);
    lemma_l_nonzero_rest(b);
    let aa = apply_lines(a, s2);
    match (a[0], b[0]) {
        (LPrim::Delete(n), _) => {
                let k = n as int;
                let p = LPrim::Delete(n);
                lemma_llen_push_line(acc, p);
                lemma_lcompose_from(push_line(acc, p), a1, b, s1 + s2.take(k), s2.skip(k));
                lemma_lcompose_step(acc, p, a1, b, s1, s2, k);
                lemma_lapply_single(p, s2.take(k));
                assert(e + apply_lines(b, apply_lines(a1, s2.skip(k))) =~= apply_lines(b, aa));
        },
        _ => {},
    }
}

#[verifier::rlimit(100)]
#[verifier::spinoff_prover]
proof fn lemma_lcompose_insert_right(acc: Seq<LPrim>, a: Seq<LPrim>, b: Seq<LPrim>, s1: Seq<Seq<u8>>, s2: Seq<Seq<u8>>)
    requires
        s1.len() == lsrc_len(acc),
        s2.len() == lsrc_len(a),
        ltgt_len(a) == lsrc_len(b),
        l_nonzero(a),
        l_nonzero(b),
        line_fits(a, s2),
        a.len() > 0,
        b.len() > 0,
        !(a[0] is Delete) && b[0] is Insert,
    ensures
        apply_lines(compose_lines_from(acc, a, b), s1 + s2) == apply_lines(acc, s1) + apply_lines(b, apply_lines(a, s2)),
    decreases a.len() + b.len(), 0int,
{
    lemma_lunfold(a);
    lemma_lunfold(b);
    let e = Seq::<Seq<u8>>::empty();
    let a1 = a.drop_first();
    let b1 = b.drop_first();
    lemma_line_fits_unfold(a, s2);
    lemma_l_nonzero_rest(a);
    lemma_l_nonzero_rest(b);
    let aa = apply_lines(a, s2);
    match (a[0], b[0]) {
        (_, LPrim::Insert(t)) => {
                let p = LPrim::Insert(t);
                lemma_llen_push_line(acc, p);
                assert(s2.skip(0) =~= s2);
                lemma_lcompose_from(push_line(acc, p), a, b1, s1 + s2.take(0), s2.skip(0));
                lemma_lcompose_step(acc, p, a, b1, s1, s2, 0);
                lemma_lapply_single(p, s2.take(0));
                assert(s2.skip(0) =~= s2);
                assert(seq![t] + apply_lines(b1, aa) =~= apply_lines(b, aa));
        },
        _ => {},
    }
}

#[verifier::rlimit(100)]
#[verifier::spinoff_prover]
proof fn lemma_lcompose_retain_retain(acc: Seq<LPrim>, a: Seq<LPrim>, b: Seq<LPrim>, s1: Seq<Seq<u8>>, s2: Seq<Seq<u8>>)
    requires
        s1.len() == lsrc_len(acc),
        s2.len() == lsrc_len(a),
        ltgt_len(a) == lsrc_len(b),
        l_nonzero(a),
        l_nonzero(b),
        line_fits(a, s2),
        a.len() > 0,
        b.len() > 0,
        a[0] is Retain && b[0] is Retain,
    ensures
        apply_lines(compose_lines_from(acc, a, b), s1 + s2) == apply_lines(acc, s1) + apply_lines(b, apply_lines(a, s2)),
    decreases a.len() + b.len(), 0int,
{
    lemma_lunfold(a);
    lemma_lunfold(b);
    let e = Seq::<Seq<u8>>::empty();
    let a1 = a.drop_first();
    let b1 = b.drop_first();
    lemma_line_fits_unfold(a, s2);
    lemma_l_nonzero_rest(a);
    lemma_l_nonzero_rest(b);
    let aa = apply_lines(a, s2);
    match (a[0], b[0]) {
        (LPrim::Retain(x), LPrim::Retain(y)) => {
                let m = if x < y { x } else { y };
                let k = m as int;
                let p = LPrim::Retain(m);
                let a2 = if x <= y { a1 } else { a.update(0, LPrim::Retain((x - y) as nat)) };
                let b2 = if y <= x { b1 } else { b.update(0, LPrim::Retain((y - x) as nat)) };
                lemma_lunfold(a2);
                lemma_lunfold(b2);
                if x > y { assert(a2.drop_first() =~= a1); }
                if y > x { assert(b2.drop_first() =~= b1); }
                assert(l_nonzero(a2));
                assert(l_nonzero(b2));
                let t2 = s2.skip(k);
                assert(line_fits(a2, t2)) by {
                    if x > y {
                        assert(t2.skip(x - y) =~= s2.skip(x as int));
                    } else {
                        assert(t2 =~= s2.skip(x as int));
                    }
                }
                lemma_llen_push_line(acc, p);
                lemma_lcompose_from(push_line(acc, p), a2, b2, s1 + s2.take(k), t2);
                lemma_lcompose_step(acc, p, a2, b2, s1, s2, k);
                lemma_lapply_single(p, s2.take(k));
                let a2a = apply_lines(a2, t2);
                lemma_apply_lines_len(a2, t2);
                assert(aa =~= s2.take(k) + a2a) by {
                    if x > y {
                        assert(s2.take(x as int) =~= s2.take(k) + t2.take(x - y));
                        assert(s2.skip(x as int) =~= t2.skip(x - y));
                    }
                }
                if y > x {
                    assert(aa.take(y as int) =~= s2.take(k) + a2a.take(y - x));
                    assert(aa.skip(y as int) =~= a2a.skip(y - x));
                } else {
                    assert(aa.take(y as int) =~= s2.take(k));
                    assert(aa.skip(y as int) =~= a2a);
                }
        },
        _ => {},
    }
}

#[verifier::rlimit(100)]
#[verifier::spinoff_prover]
proof fn lemma_lcompose_retain_delete(acc: Seq<LPrim>, a: Seq<LPrim>, b: Seq<LPrim>, s1: Seq<Seq<u8>>, s2: Seq<Seq<u8>>)
    requires
        s1.len() == lsrc_len(acc),
        s2.len() == lsrc_len(a),
        ltgt_len(a) == lsrc_len(b),
        l_nonzero(a),
        l_nonzero(b),
        line_fits(a, s2),
        a.len() > 0,
        b.len() > 0,
        a[0] is Retain && b[0] is Delete,
    ensures
        apply_lines(compose_lines_from(acc, a, b), s1 + s2) == apply_lines(acc, s1) + apply_lines(b, apply_lines(a, s2)),
    decreases a.len() + b.len(), 0int,
{
    lemma_lunfold(a);
    lemma_lunfold(b);
    let e = Seq::<Seq<u8>>::empty();
    let a1 = a.drop_first();
    let b1 = b.drop_first();
    lemma_line_fits_unfold(a, s2);
    lemma_l_nonzero_rest(a);
    lemma_l_nonzero_rest(b);
    let aa = apply_lines(a, s2);
    match (a[0], b[0]) {
        (LPrim::Retain(x), LPrim::Delete(y)) => {
                let m = if x < y { x } else { y };
                let k = m as int;
                let p = LPrim::Delete(m);
                let a2 = if x <= y { a1 } else { a.update(0, LPrim::Retain((x - y) as nat)) };
                let b2 = if y <= x { b1 } else { b.update(0, LPrim::Delete((y - x) as nat)) };
                lemma_lunfold(a2);
                lemma_lunfold(b2);
                if x > y { assert(a2.drop_first() =~= a1); }
                if y > x { assert(b2.drop_first() =~= b1); }
                assert(l_nonzero(a2));
                assert(l_nonzero(b2));
                let t2 = s2.skip(k);
                assert(line_fits(a2, t2)) by {
                    if x > y {
                        assert(t2.skip(x - y) =~= s2.skip(x as int));
                    } else {
                        assert(t2 =~= s2.skip(x as int));
                    }
                }
                lemma_llen_push_line(acc, p);
                lemma_lcompose_from(push_line(acc, p), a2, b2, s1 + s2.take(k), t2);
                lemma_lcompose_step(acc, p, a2, b2, s1, s2, k);
                lemma_lapply_single(p, s2.take(k));
                let a2a = apply_lines(a2, t2);
                lemma_apply_lines_len(a2, t2);
                assert(aa =~= s2.take(k) + a2a) by {
                    if x > y {
                        assert(s2.take(x as int) =~= s2.take(k) + t2.take(x - y));
                        assert(s2.skip(x as int) =~= t2.skip(x - y));
                    }
                }
                if y > x {
                    assert(aa.skip(y as int) =~= a2a.skip(y - x));
                } else {
                    assert(aa.skip(y as int) =~= a2a);
                }
                assert(e + apply_lines(b2, a2a) =~= apply_lines(b2, a2a));
        },
        _ => {},
    }
}

#[verifier::rlimit(100)]
#[verifier::spinoff_prover]
proof fn lemma_lcompose_retain_modify(acc: Seq<LPrim>, a: Seq<LPrim>, b: Seq<LPrim>, s1: Seq<Seq<u8>>, s2: Seq<Seq<u8>>)
    requires
        s1.len() == lsrc_len(acc),
        s2.len() == lsrc_len(a),
        ltgt_len(a) == lsrc_len(b),
        l_nonzero(a),
        l_nonzero(b),
        line_fits(a, s2),
        a.len() > 0,
        b.len() > 0,
        a[0] is Retain && b[0] is Modify,
    ensures
        apply_lines(compose_lines_from(acc, a, b), s1 + s2) == apply_lines(acc, s1) + apply_lines(b, apply_lines(a, s2)),
    decreases a.len() + b.len(), 0int,
{
    lemma_lunfold(a);
    lemma_lunfold(b);
    let e = Seq::<Seq<u8>>::empty();
    let a1 = a.drop_first();
    let b1 = b.drop_first();
    lemma_line_fits_unfold(a, s2);
    lemma_l_nonzero_rest(a);
    lemma_l_nonzero_rest(b);
    let aa = apply_lines(a, s2);
    match (a[0], b[0]) {
        (LPrim::Retain(x), LPrim::Modify(c)) => {
                let p = LPrim::Modify(c);
                let a2 = drop_one(a);
                lemma_drop_one(a);
                let t2 = s2.skip(1);
                assert(line_fits(a2, t2)) by {
                    if x > 1 {
                        assert(a2[0] == LPrim::Retain((x - 1) as nat));
                        assert(a2.drop_first() =~= a1);
                        assert(t2.skip(x - 1) =~= s2.skip(x as int));
                    } else {
                        assert(t2 =~= s2.skip(x as int));
                    }
                }
                lemma_llen_push_line(acc, p);
                lemma_lcompose_from(push_line(acc, p), a2, b1, s1 + s2.take(1), t2);
                lemma_lcompose_step(acc, p, a2, b1, s1, s2, 1);
                lemma_lapply_single(p, s2.take(1));
                let a2a = apply_lines(a2, t2);
                assert(aa =~= s2.take(1) + a2a) by {
                    if x > 1 {
                        assert(a2[0] == LPrim::Retain((x - 1) as nat));
                        assert(a2.drop_first() =~= a1);
                        assert(s2.take(x as int) =~= s2.take(1) + t2.take(x - 1));
                        assert(s2.skip(x as int) =~= t2.skip(x - 1));
                    } else {
                        assert(s2.take(x as int) =~= s2.take(1));
                        assert(s2.skip(x as int) =~= t2);
                    }
                }
                assert(aa[0] == s2.take(1)[0]);
                assert(aa.skip(1) =~= a2a);
        },
        _ => {},
    }
}

#[verifier::rlimit(100)]
#[verifier::spinoff_prover]
proof fn lemma_lcompose_insert_delete(acc: Seq<LPrim>, a: Seq<LPrim>, b: Seq<LPrim>, s1: Seq<Seq<u8>>, s2: Seq<Seq<u8>>)
    requires
        s1.len() == lsrc_len(acc),
        s2.len() == lsrc_len(a),
        ltgt_len(a) == lsrc_len(b),
        l_nonzero(a),
        l_nonzero(b),
        line_fits(a, s2),
        a.len() > 0,
        b.len() > 0,
        a[0] is Insert && b[0] is Delete,
    ensures
        apply_lines(compose_lines_from(acc, a, b), s1 + s2) == apply_lines(acc, s1) + apply_lines(b, apply_lines(a, s2)),
    decreases a.len() + b.len(), 0int,
{
    lemma_lunfold(a);
    lemma_lunfold(b);
    let e = Seq::<Seq<u8>>::empty();
    let a1 = a.drop_first();
    let b1 = b.drop_first();
    lemma_line_fits_unfold(a, s2);
    lemma_l_nonzero_rest(a);
    lemma_l_nonzero_rest(b);
    let aa = apply_lines(a, s2);
    match (a[0], b[0]) {
        (LPrim::Insert(t), LPrim::Delete(y)) => {
                let b2 = drop_one(b);
                lemma_drop_one(b);
                lemma_lcompose_from(acc, a1, b2, s1, s2);
                let a1a = apply_lines(a1, s2);
                assert(aa == seq![t] + a1a);
                lemma_apply_lines_len(a1, s2);
                if y > 1 {
                    assert(b2[0] == LPrim::Delete((y - 1) as nat));
                    assert(b2.drop_first() =~= b1);
                    assert(aa.skip(y as int) =~= a1a.skip(y - 1));
                } else {
                    assert(aa.skip(y as int) =~= a1a);
                }
        },
        _ => {},
    }
}

#[verifier::rlimit(100)]
#[verifier::spinoff_prover]
proof fn lemma_lcompose_insert_retain(acc: Seq<LPrim>, a: Seq<LPrim>, b: Seq<LPrim>, s1: Seq<Seq<u8>>, s2: Seq<Seq<u8>>)
    requires
        s1.len() == lsrc_len(acc),
        s2.len() == lsrc_len(a),
        ltgt_len(a) == lsrc_len(b),
        l_nonzero(a),
        l_nonzero(b),
        line_fits(a, s2),
        a.len() > 0,
        b.len() > 0,
        a[0] is Insert && b[0] is Retain,
    ensures
        apply_lines(compose_lines_from(acc, a, b), s1 + s2) == apply_lines(acc, s1) + apply_lines(b, apply_lines(a, s2)),
    decreases a.len() + b.len(), 0int,
{
    lemma_lunfold(a);
    lemma_lunfold(b);
    let e = Seq::<Seq<u8>>::empty();
    let a1 = a.drop_first();
    let b1 = b.drop_first();
    lemma_line_fits_unfold(a, s2);
    lemma_l_nonzero_rest(a);
    lemma_l_nonzero_rest(b);
    let aa = apply_lines(a, s2);
    match (a[0], b[0]) {
        (LPrim::Insert(t), LPrim::Retain(y)) => {
                let p = LPrim::Insert(t);
                let b2 = drop_one(b);
                lemma_drop_one(b);
                lemma_llen_push_line(acc, p);
                assert(s2.skip(0) =~= s2);
                lemma_lcompose_from(push_line(acc, p), a1, b2, s1 + s2.take(0), s2.skip(0));
                lemma_lcompose_step(acc, p, a1, b2, s1, s2, 0);
                lemma_lapply_single(p, s2.take(0));
                assert(s2.skip(0) =~= s2);
                let a1a = apply_lines(a1, s2);
                assert(aa == seq![t] + a1a);
                lemma_apply_lines_len(a1, s2);
                if y > 1 {
                    assert(b2[0] == LPrim::Retain((y - 1) as nat));
                    assert(b2.drop_first() =~= b1);
                    assert(aa.take(y as int) =~= seq![t] + a1a.take(y - 1));
                    assert(aa.skip(y as int) =~= a1a.skip(y - 1));
                } else {
                    assert(aa.take(y as int) =~= seq![t]);
                    assert(aa.skip(y as int) =~= a1a);
                }
        },
        _ => {},
    }
}

#[verifier::rlimit(100)]
#[verifier::spinoff_prover]
proof fn lemma_lcompose_insert_modify(acc: Seq<LPrim>, a: Seq<LPrim>, b: Seq<LPrim>, s1: Seq<Seq<u8>>, s2: Seq<Seq<u8>>)
    requires
        s1.len() == lsrc_len(acc),
        s2.len() == lsrc_len(a),
        ltgt_len(a) == lsrc_len(b),
        l_nonzero(a),
        l_nonzero(b),
        line_fits(a, s2),
        a.len() > 0,
        b.len() > 0,
        a[0] is Insert && b[0] is Modify,
    ensures
        apply_lines(compose_lines_from(acc, a, b), s1 + s2) == apply_lines(acc, s1) + apply_lines(b, apply_lines(a, s2)),
    decreases a.len() + b.len(), 0int,
{
    lemma_lunfold(a);
    lemma_lunfold(b);
    let e = Seq::<Seq<u8>>::empty();
    let a1 = a.drop_first();
    let b1 = b.drop_first();
    lemma_line_fits_unfold(a, s2);
    lemma_l_nonzero_rest(a);
    lemma_l_nonzero_rest(b);
    let aa = apply_lines(a, s2);
    match (a[0], b[0]) {
        (LPrim::Insert(t), LPrim::Modify(c)) => {
                let p = LPrim::Insert(modify_line(c, t));
                lemma_llen_push_line(acc, p);
                assert(s2.skip(0) =~= s2);
                lemma_lcompose_from(push_line(acc, p), a1, b1, s1 + s2.take(0), s2.skip(0));
                lemma_lcompose_step(acc, p, a1, b1, s1, s2, 0);
                lemma_lapply_single(p, s2.take(0));
                assert(s2.skip(0) =~= s2);
                let a1a = apply_lines(a1, s2);
                assert(aa == seq![t] + a1a);
                assert(aa.skip(1) =~= a1a);
        },
        _ => {},
    }
}

#[verifier::rlimit(100)]
#[verifier::spinoff_prover]
proof fn lemma_lcompose_modify_retain(acc: Seq<LPrim>, a: Seq<LPrim>, b: Seq<LPrim>, s1: Seq<Seq<u8>>, s2: Seq<Seq<u8>>)
    requires
        s1.len() == lsrc_len(acc),
        s2.len() == lsrc_len(a),
        ltgt_len(a) == lsrc_len(b),
        l_nonzero(a),
        l_nonzero(b),
        line_fits(a, s2),
        a.len() > 0,
        b.len() > 0,
        a[0] is Modify && b[0] is Retain,
    ensures
        apply_lines(compose_lines_from(acc, a, b), s1 + s2) == apply_lines(acc, s1) + apply_lines(b, apply_lines(a, s2)),
    decreases a.len() + b.len(), 0int,
{
    lemma_lunfold(a);
    lemma_lunfold(b);
    let e = Seq::<Seq<u8>>::empty();
    let a1 = a.drop_first();
    let b1 = b.drop_first();
    lemma_line_fits_unfold(a, s2);
    lemma_l_nonzero_rest(a);
    lemma_l_nonzero_rest(b);
    let aa = apply_lines(a, s2);
    match (a[0], b[0]) {
        (LPrim::Modify(c), LPrim::Retain(y)) => {
                let p = LPrim::Modify(c);
                let b2 = drop_one(b);
                lemma_drop_one(b);
                let t2 = s2.skip(1);
                lemma_llen_push_line(acc, p);
                lemma_lcompose_from(push_line(acc, p), a1, b2, s1 + s2.take(1), t2);
                lemma_lcompose_step(acc, p, a1, b2, s1, s2, 1);
                lemma_lapply_single(p, s2.take(1));
                let a1a = apply_lines(a1, t2);
                lemma_apply_lines_len(a1, t2);
                assert(aa == seq![modify_line(c, s2[0])] + a1a);
                assert(s2.take(1)[0] == s2[0]);
                if y > 1 {
                    assert(b2[0] == LPrim::Retain((y - 1) as nat));
                    assert(b2.drop_first() =~= b1);
                    assert(aa.take(y as int) =~= seq![modify_line(c, s2[0])] + a1a.take(y - 1));
                    assert(aa.skip(y as int) =~= a1a.skip(y - 1));
                } else {
                    assert(aa.take(y as int) =~= seq![modify_line(c, s2[0])]);
                    assert(aa.skip(y as int) =~= a1a);
                }
        },
        _ => {},
    }
}

#[verifier::rlimit(100)]
#[verifier::spinoff_prover]
proof fn lemma_lcompose_modify_delete(acc: Seq<LPrim>, a: Seq<LPrim>, b: Seq<LPrim>, s1: Seq<Seq<u8>>, s2: Seq<Seq<u8>>)
    requires
        s1.len() == lsrc_len(acc),
        s2.len() == lsrc_len(a),
        ltgt_len(a) == lsrc_len(b),
        l_nonzero(a),
        l_nonzero(b),
        line_fits(a, s2),
        a.len() > 0,
        b.len() > 0,
        a[0] is Modify && b[0] is Delete,
    ensures
        apply_lines(compose_lines_from(acc, a, b), s1 + s2) == apply_lines(acc, s1) + apply_lines(b, apply_lines(a, s2)),
    decreases a.len() + b.len(), 0int,
{
    lemma_lunfold(a);
    lemma_lunfold(b);
    let e = Seq::<Seq<u8>>::empty();
    let a1 = a.drop_first();
    let b1 = b.drop_first();
    lemma_line_fits_unfold(a, s2);
    lemma_l_nonzero_rest(a);
    lemma_l_nonzero_rest(b);
    let aa = apply_lines(a, s2);
    match (a[0], b[0]) {
        (LPrim::Modify(c), LPrim::Delete(y)) => {
                let p = LPrim::Delete(1);
                let b2 = drop_one(b);
                lemma_drop_one(b);
                let t2 = s2.skip(1);
                lemma_llen_push_line(acc, p);
                lemma_lcompose_from(push_line(acc, p), a1, b2, s1 + s2.take(1), t2);
                lemma_lcompose_step(acc, p, a1, b2, s1, s2, 1);
                lemma_lapply_single(p, s2.take(1));
                let a1a = apply_lines(a1, t2);
                lemma_apply_lines_len(a1, t2);
                assert(aa == seq![modify_line(c, s2[0])] + a1a);
                if y > 1 {
                    assert(b2[0] == LPrim::Delete((y - 1) as nat));
                    assert(b2.drop_first() =~= b1);
                    assert(aa.skip(y as int) =~= a1a.skip(y - 1));
                } else {
                    assert(aa.skip(y as int) =~= a1a);
                }
                assert(e + apply_lines(b2, a1a) =~= apply_lines(b2, a1a));
        },
        _ => {},
    }
}

#[verifier::rlimit(100)]
#[verifier::spinoff_prover]
proof fn lemma_lcompose_modify_modify(acc: Seq<LPrim>, a: Seq<LPrim>, b: Seq<LPrim>, s1: Seq<Seq<u8>>, s2: Seq<Seq<u8>>)
    requires
        s1.len() == lsrc_len(acc),
        s2.len() == lsrc_len(a),
        ltgt_len(a) == lsrc_len(b),
        l_nonzero(a),
        l_nonzero(b),
        line_fits(a, s2),
        a.len() > 0,
        b.len() > 0,
        a[0] is Modify && b[0] is Modify,
    ensures
        apply_lines(compose_lines_from(acc, a, b), s1 + s2) == apply_lines(acc, s1) + apply_lines(b, apply_lines(a, s2)),
    decreases a.len() + b.len(), 0int,
{
    lemma_lunfold(a);
    lemma_lunfold(b);
    let e = Seq::<Seq<u8>>::empty();
    let a1 = a.drop_first();
    let b1 = b.drop_first();
    lemma_line_fits_unfold(a, s2);
    lemma_l_nonzero_rest(a);
    lemma_l_nonzero_rest(b);
    let aa = apply_lines(a, s2);
    match (a[0], b[0]) {
        (LPrim::Modify(c), LPrim::Modify(d)) => {
                let cd = if tgt_len(c) == src_len(d) { compose_ops(c, d) } else { c };
                let p = LPrim::Modify(cd);
                let t2 = s2.skip(1);
                lemma_llen_push_line(acc, p);
                lemma_lcompose_from(push_line(acc, p), a1, b1, s1 + s2.take(1), t2);
                lemma_lcompose_step(acc, p, a1, b1, s1, s2, 1);
                lemma_lapply_single(p, s2.take(1));
                let a1a = apply_lines(a1, t2);
                let l = s2[0];
                assert(s2.take(1)[0] == l);
                assert(aa == seq![modify_line(c, l)] + a1a);
                assert(aa[0] == modify_line(c, l));
                assert(aa.skip(1) =~= a1a);
                lemma_apply_len(c, l);
                if tgt_len(c) == src_len(d) {
                    lemma_compose_apply(c, d, l);
                }
                assert(modify_line(cd, l) == modify_line(d, modify_line(c, l)));
        },
        _ => {},
    }
}

/// Applying the line-wise composition of `a` and `b` is applying `a`, then
/// `b`, on lines that the modifications of `a` fit.
pub proof fn lemma_compose_lines_apply(a: Seq<LPrim>, b: Seq<LPrim>, s: Seq<Seq<u8>>)
    requires
        l_nonzero(a),
        l_nonzero(b),
        s.len() == lsrc_len(a),
        ltgt_len(a) == lsrc_len(b),
        line_fits(a, s),
    ensures
        apply_lines(compose_lines(a, b), s) == apply_lines(b, apply_lines(a, s)),
{
    let e = Seq::<Seq<u8>>::empty();
    assert(lsrc_len(Seq::<LPrim>::empty()) == 0);
    lemma_lcompose_from(Seq::empty(), a, b, e, s);
    assert(e + s =~= s);
    assert(apply_lines(Seq::<LPrim>::empty(), e) =~= e);
    assert(e + apply_lines(b, apply_lines(a, s)) =~= apply_lines(b, apply_lines(a, s)));
}


/// Every modification is canonical and writes a line whose length fits in `isize`.
pub open spec fn mods_ok(a: Seq<LPrim>) -> bool {
    forall|i: int|
        0 <= i < a.len() ==> (#[trigger] a[i] is Modify ==> canonical(a[i]->Modify_0) && tgt_len(a[i]->Modify_0)
            <= isize::MAX)
}

proof fn lemma_mods_ok_at(a: Seq<LPrim>, i: int)
    requires
        mods_ok(a),
        0 <= i < a.len(),
        a[i] is Modify,
    ensures
        canonical(a[i]->Modify_0),
        tgt_len(a[i]->Modify_0) <= isize::MAX,
{
}

proof fn lemma_mods_ok_rest(a: Seq<LPrim>)
    requires
        mods_ok(a),
    ensures
        a.len() > 0 ==> mods_ok(a.drop_first()),
{
    if a.len() > 0 {
        let a1 = a.drop_first();
        assert forall|i: int| 0 <= i < a1.len() implies (#[trigger] a1[i] is Modify ==> canonical(a1[i]->Modify_0)
            && tgt_len(a1[i]->Modify_0) <= isize::MAX) by {
            assert(a1[i] == a[i + 1]);
        }
    }
}

proof fn lemma_mods_ok_head(a: Seq<LPrim>, a2: Seq<LPrim>)
    requires
        mods_ok(a),
        a.len() > 0,
        a2 == a.drop_first() || (a2.len() == a.len() && !(a2[0] is Modify) && a2.drop_first() == a.drop_first()),
    ensures
        mods_ok(a2),
{
    lemma_mods_ok_rest(a);
    if a2 != a.drop_first() {
        assert forall|i: int| 0 <= i < a2.len() implies (#[trigger] a2[i] is Modify ==> canonical(a2[i]->Modify_0)
            && tgt_len(a2[i]->Modify_0) <= isize::MAX) by {
            if i > 0 {
                assert(a2[i] == a2.drop_first()[i - 1]);
                assert(a2[i] == a[i]);
            }
        }
    }
}

proof fn lemma_mods_ok_drop_one(a: Seq<LPrim>)
    requires
        mods_ok(a),
        a.len() > 0,
        a[0] is Retain || a[0] is Delete,
    ensures
        mods_ok(drop_one(a)),
{
    let d = drop_one(a);
    if lprim_src(a[0]) > 1 {
        assert(d.drop_first() =~= a.drop_first());
    }
    lemma_mods_ok_head(a, d);
}

proof fn lemma_lpush_both(
    l: Seq<LPrim>,
    m: Seq<LPrim>,
    p: LPrim,
    q: LPrim,
    x: Seq<Seq<u8>>,
    y: Seq<Seq<u8>>,
    u: Seq<Seq<u8>>,
    v: Seq<Seq<u8>>,
)
    requires
        lsrc_len(l) == x.len(),
        lsrc_len(m) == y.len(),
        lprim_src(p) == u.len(),
        lprim_src(q) == v.len(),
        apply_lines(l, x) == apply_lines(m, y),
        apply_lines(seq![p], u) == apply_lines(seq![q], v),
    ensures
        apply_lines(push_line(l, p), x + u) == apply_lines(push_line(m, q), y + v),
        lsrc_len(push_line(l, p)) == (x + u).len(),
        lsrc_len(push_line(m, q)) == (y + v).len(),
{
    lemma_llen_push_line(l, p);
    lemma_llen_push_line(m, q);
    lemma_lapply_push(l, p, x + u);
    lemma_lapply_push(m, q, y + v);
    assert((x + u).take(x.len() as int) =~= x);
    assert((x + u).skip(x.len() as int) =~= u);
    assert((y + v).take(y.len() as int) =~= y);
    assert((y + v).skip(y.len() as int) =~= v);
}

/// Line-wise transformation converges, with `xa` read by `lb` and `xb` read
/// by `la` giving the same lines.
proof fn lemma_ltransform_from(la: Seq<LPrim>, lb: Seq<LPrim>, a: Seq<LPrim>, b: Seq<LPrim>, xa: Seq<Seq<u8>>, xb: Seq<Seq<u8>>, s: Seq<Seq<u8>>)
    requires
        lsrc_len(a) == s.len(),
        lsrc_len(b) == s.len(),
        lsrc_len(lb) == xa.len(),
        lsrc_len(la) == xb.len(),
        apply_lines(lb, xa) == apply_lines(la, xb),
        l_nonzero(a),
        l_nonzero(b),
        line_fits(a, s),
        line_fits(b, s),
        mods_ok(a),
        mods_ok(b),
    ensures
        apply_lines(transform_lines_from(la, lb, a, b).1, xa + apply_lines(a, s)) == apply_lines(
            transform_lines_from(la, lb, a, b).0,
            xb + apply_lines(b, s),
        ),
        lsrc_len(transform_lines_from(la, lb, a, b).1) == lsrc_len(lb) + ltgt_len(a),
        lsrc_len(transform_lines_from(la, lb, a, b).0) == lsrc_len(la) + ltgt_len(b),
    decreases a.len() + b.len(), 1int,
{
    lemma_lunfold(a);
    lemma_lunfold(b);
    if a.len() > 0 && a[0] is Insert {
        lemma_ltransform_insert_left(la, lb, a, b, xa, xb, s);
    } else if b.len() > 0 && b[0] is Insert {
        lemma_ltransform_insert_right(la, lb, a, b, xa, xb, s);
    } else if a.len() == 0 || b.len() == 0 {
        if a.len() > 0 {
            lemma_lsrc_positive_law(a);
        }
        if b.len() > 0 {
            lemma_lsrc_positive_law(b);
        }
        assert(xa + apply_lines(a, s) =~= xa);
        assert(xb + apply_lines(b, s) =~= xb);
    } else if a[0] is Retain && b[0] is Retain {
        lemma_ltransform_retain_retain(la, lb, a, b, xa, xb, s);
    } else if a[0] is Delete && b[0] is Delete {
        lemma_ltransform_delete_delete(la, lb, a, b, xa, xb, s);
    } else if a[0] is Retain && b[0] is Delete {
        lemma_ltransform_retain_delete(la, lb, a, b, xa, xb, s);
    } else if a[0] is Delete && b[0] is Retain {
        lemma_ltransform_delete_retain(la, lb, a, b, xa, xb, s);
    } else if a[0] is Modify && b[0] is Modify {
        lemma_ltransform_modify_modify(la, lb, a, b, xa, xb, s);
    } else if a[0] is Modify && b[0] is Retain {
        lemma_ltransform_modify_retain(la, lb, a, b, xa, xb, s);
    } else if a[0] is Retain && b[0] is Modify {
        lemma_ltransform_retain_modify(la, lb, a, b, xa, xb, s);
    } else if a[0] is Modify && b[0] is Delete {
        lemma_ltransform_modify_delete(la, lb, a, b, xa, xb, s);
    } else {
        lemma_ltransform_delete_modify(la, lb, a, b, xa, xb, s);
    }
}

proof fn lemma_lsrc_positive_law(s: Seq<LPrim>)
    requires
        l_nonzero(s),
        s.len() > 0,
        !(s[0] is Insert),
    ensures
        lsrc_len(s) > 0,
{
}

#[verifier::rlimit(100)]
#[verifier::spinoff_prover]
proof fn lemma_ltransform_insert_left(la: Seq<LPrim>, lb: Seq<LPrim>, a: Seq<LPrim>, b: Seq<LPrim>, xa: Seq<Seq<u8>>, xb: Seq<Seq<u8>>, s: Seq<Seq<u8>>)
    requires
        lsrc_len(a) == s.len(),
        lsrc_len(b) == s.len(),
        lsrc_len(lb) == xa.len(),
        lsrc_len(la) == xb.len(),
        apply_lines(lb, xa) == apply_lines(la, xb),
        l_nonzero(a),
        l_nonzero(b),
        line_fits(a, s),
        line_fits(b, s),
        mods_ok(a),
        mods_ok(b),
        a.len() > 0,
        a[0] is Insert,
    ensures
        apply_lines(transform_lines_from(la, lb, a, b).1, xa + apply_lines(a, s)) == apply_lines(
            transform_lines_from(la, lb, a, b).0,
            xb + apply_lines(b, s),
        ),
        lsrc_len(transform_lines_from(la, lb, a, b).1) == lsrc_len(lb) + ltgt_len(a),
        lsrc_len(transform_lines_from(la, lb, a, b).0) == lsrc_len(la) + ltgt_len(b),
    decreases a.len() + b.len(), 0int,
{
    lemma_lunfold(a);
    lemma_lunfold(b);
    lemma_line_fits_unfold(a, s);
    lemma_l_nonzero_rest(a);
    lemma_mods_ok_rest(a);
    let a1 = a.drop_first();
    let b1 = b.drop_first();
    let t = a[0]->Insert_0;
    let e = Seq::<Seq<u8>>::empty();
    lemma_lapply_single(LPrim::Insert(t), e);
    lemma_lapply_single(LPrim::Retain(1), seq![t]);
    lemma_lpush_both(lb, la, LPrim::Retain(1), LPrim::Insert(t), xa, xb, seq![t], e);
    assert(xb + e =~= xb);
    lemma_ltransform_from(push_line(la, LPrim::Insert(t)), push_line(lb, LPrim::Retain(1)), a1, b, xa + seq![t], xb, s);
    assert(xa + apply_lines(a, s) =~= (xa + seq![t]) + apply_lines(a1, s));
}

#[verifier::rlimit(100)]
#[verifier::spinoff_prover]
proof fn lemma_ltransform_insert_right(la: Seq<LPrim>, lb: Seq<LPrim>, a: Seq<LPrim>, b: Seq<LPrim>, xa: Seq<Seq<u8>>, xb: Seq<Seq<u8>>, s: Seq<Seq<u8>>)
    requires
        lsrc_len(a) == s.len(),
        lsrc_len(b) == s.len(),
        lsrc_len(lb) == xa.len(),
        lsrc_len(la) == xb.len(),
        apply_lines(lb, xa) == apply_lines(la, xb),
        l_nonzero(a),
        l_nonzero(b),
        line_fits(a, s),
        line_fits(b, s),
        mods_ok(a),
        mods_ok(b),
        b.len() > 0,
        (a.len() == 0 || !(a[0] is Insert)) && b[0] is Insert,
    ensures
        apply_lines(transform_lines_from(la, lb, a, b).1, xa + apply_lines(a, s)) == apply_lines(
            transform_lines_from(la, lb, a, b).0,
            xb + apply_lines(b, s),
        ),
        lsrc_len(transform_lines_from(la, lb, a, b).1) == lsrc_len(lb) + ltgt_len(a),
        lsrc_len(transform_lines_from(la, lb, a, b).0) == lsrc_len(la) + ltgt_len(b),
    decreases a.len() + b.len(), 0int,
{
    lemma_lunfold(a);
    lemma_lunfold(b);
    lemma_line_fits_unfold(b, s);
    lemma_l_nonzero_rest(b);
    lemma_mods_ok_rest(b);
    let a1 = a.drop_first();
    let b1 = b.drop_first();
    let t = b[0]->Insert_0;
    let e = Seq::<Seq<u8>>::empty();
    lemma_lapply_single(LPrim::Insert(t), e);
    lemma_lapply_single(LPrim::Retain(1), seq![t]);
    lemma_lpush_both(lb, la, LPrim::Insert(t), LPrim::Retain(1), xa, xb, e, seq![t]);
    assert(xa + e =~= xa);
    lemma_ltransform_from(push_line(la, LPrim::Retain(1)), push_line(lb, LPrim::Insert(t)), a, b1, xa, xb + seq![t], s);
    assert(xb + apply_lines(b, s) =~= (xb + seq![t]) + apply_lines(b1, s));
}

#[verifier::rlimit(100)]
#[verifier::spinoff_prover]
proof fn lemma_ltransform_retain_retain(la: Seq<LPrim>, lb: Seq<LPrim>, a: Seq<LPrim>, b: Seq<LPrim>, xa: Seq<Seq<u8>>, xb: Seq<Seq<u8>>, s: Seq<Seq<u8>>)
    requires
        lsrc_len(a) == s.len(),
        lsrc_len(b) == s.len(),
        lsrc_len(lb) == xa.len(),
        lsrc_len(la) == xb.len(),
        apply_lines(lb, xa) == apply_lines(la, xb),
        l_nonzero(a),
        l_nonzero(b),
        line_fits(a, s),
        line_fits(b, s),
        mods_ok(a),
        mods_ok(b),
        a.len() > 0,
        b.len() > 0,
        a[0] is Retain && b[0] is Retain,
    ensures
        apply_lines(transform_lines_from(la, lb, a, b).1, xa + apply_lines(a, s)) == apply_lines(
            transform_lines_from(la, lb, a, b).0,
            xb + apply_lines(b, s),
        ),
        lsrc_len(transform_lines_from(la, lb, a, b).1) == lsrc_len(lb) + ltgt_len(a),
        lsrc_len(transform_lines_from(la, lb, a, b).0) == lsrc_len(la) + ltgt_len(b),
    decreases a.len() + b.len(), 0int,
{
    lemma_lunfold(a);
    lemma_lunfold(b);
    lemma_line_fits_unfold(a, s);
    lemma_line_fits_unfold(b, s);
    lemma_l_nonzero_rest(a);
    lemma_l_nonzero_rest(b);
    lemma_mods_ok_rest(a);
    lemma_mods_ok_rest(b);
    let a1 = a.drop_first();
    let b1 = b.drop_first();
    let x = a[0]->Retain_0;
    let y = b[0]->Retain_0;
    let m = if x < y { x } else { y };
    let h = s.take(m as int);
    let s2 = s.skip(m as int);
    let a2 = if x <= y { a1 } else { a.update(0, LPrim::Retain((x - y) as nat)) };
    let b2 = if y <= x { b1 } else { b.update(0, LPrim::Retain((y - x) as nat)) };
    lemma_lunfold(a2);
    lemma_lunfold(b2);
    if x > y {
        assert(a2.drop_first() =~= a1);
    }
    if y > x {
        assert(b2.drop_first() =~= b1);
    }
    assert(l_nonzero(a2));
    assert(l_nonzero(b2));
    lemma_mods_ok_head(a, a2);
    lemma_mods_ok_head(b, b2);
    assert(line_fits(a2, s2)) by {
        if x > y {
            assert(s2.skip(x - y) =~= s.skip(x as int));
        } else {
            assert(s2 =~= s.skip(x as int));
        }
    }
    assert(line_fits(b2, s2)) by {
        if y > x {
            assert(s2.skip(y - x) =~= s.skip(y as int));
        } else {
            assert(s2 =~= s.skip(y as int));
        }
    }
    assert(apply_lines(a, s) =~= h + apply_lines(a2, s2)) by {
        if x > y {
            assert(s.take(x as int) =~= h + s2.take(x - y));
            assert(s.skip(x as int) =~= s2.skip(x - y));
        } else {
            assert(s.skip(x as int) =~= s2);
        }
    }
    assert(apply_lines(b, s) =~= h + apply_lines(b2, s2)) by {
        if y > x {
            assert(s.take(y as int) =~= h + s2.take(y - x));
            assert(s.skip(y as int) =~= s2.skip(y - x));
        } else {
            assert(s.skip(y as int) =~= s2);
        }
    }
    lemma_lapply_single(LPrim::Retain(m), h);
    lemma_lpush_both(lb, la, LPrim::Retain(m), LPrim::Retain(m), xa, xb, h, h);
    lemma_ltransform_from(push_line(la, LPrim::Retain(m)), push_line(lb, LPrim::Retain(m)), a2, b2, xa + h, xb + h, s2);
    assert(xa + apply_lines(a, s) =~= (xa + h) + apply_lines(a2, s2));
    assert(xb + apply_lines(b, s) =~= (xb + h) + apply_lines(b2, s2));
}

#[verifier::rlimit(100)]
#[verifier::spinoff_prover]
proof fn lemma_ltransform_delete_delete(la: Seq<LPrim>, lb: Seq<LPrim>, a: Seq<LPrim>, b: Seq<LPrim>, xa: Seq<Seq<u8>>, xb: Seq<Seq<u8>>, s: Seq<Seq<u8>>)
    requires
        lsrc_len(a) == s.len(),
        lsrc_len(b) == s.len(),
        lsrc_len(lb) == xa.len(),
        lsrc_len(la) == xb.len(),
        apply_lines(lb, xa) == apply_lines(la, xb),
        l_nonzero(a),
        l_nonzero(b),
        line_fits(a, s),
        line_fits(b, s),
        mods_ok(a),
        mods_ok(b),
        a.len() > 0,
        b.len() > 0,
        a[0] is Delete && b[0] is Delete,
    ensures
        apply_lines(transform_lines_from(la, lb, a, b).1, xa + apply_lines(a, s)) == apply_lines(
            transform_lines_from(la, lb, a, b).0,
            xb + apply_lines(b, s),
        ),
        lsrc_len(transform_lines_from(la, lb, a, b).1) == lsrc_len(lb) + ltgt_len(a),
        lsrc_len(transform_lines_from(la, lb, a, b).0) == lsrc_len(la) + ltgt_len(b),
    decreases a.len() + b.len(), 0int,
{
    lemma_lunfold(a);
    lemma_lunfold(b);
    lemma_line_fits_unfold(a, s);
    lemma_line_fits_unfold(b, s);
    lemma_l_nonzero_rest(a);
    lemma_l_nonzero_rest(b);
    lemma_mods_ok_rest(a);
    lemma_mods_ok_rest(b);
    let a1 = a.drop_first();
    let b1 = b.drop_first();
    let x = a[0]->Delete_0;
    let y = b[0]->Delete_0;
    let m = if x < y { x } else { y };
    let h = s.take(m as int);
    let s2 = s.skip(m as int);
    let a2 = if x <= y { a1 } else { a.update(0, LPrim::Delete((x - y) as nat)) };
    let b2 = if y <= x { b1 } else { b.update(0, LPrim::Delete((y - x) as nat)) };
    lemma_lunfold(a2);
    lemma_lunfold(b2);
    if x > y {
        assert(a2.drop_first() =~= a1);
    }
    if y > x {
        assert(b2.drop_first() =~= b1);
    }
    assert(l_nonzero(a2));
    assert(l_nonzero(b2));
    lemma_mods_ok_head(a, a2);
    lemma_mods_ok_head(b, b2);
    assert(line_fits(a2, s2)) by {
        if x > y {
            assert(s2.skip(x - y) =~= s.skip(x as int));
        } else {
            assert(s2 =~= s.skip(x as int));
        }
    }
    assert(line_fits(b2, s2)) by {
        if y > x {
            assert(s2.skip(y - x) =~= s.skip(y as int));
        } else {
            assert(s2 =~= s.skip(y as int));
        }
    }
    assert(apply_lines(a, s) =~= apply_lines(a2, s2)) by {
        if x > y {
            assert(s.skip(x as int) =~= s2.skip(x - y));
        } else {
            assert(s.skip(x as int) =~= s2);
        }
    }
    assert(apply_lines(b, s) =~= apply_lines(b2, s2)) by {
        if y > x {
            assert(s.skip(y as int) =~= s2.skip(y - x));
        } else {
            assert(s.skip(y as int) =~= s2);
        }
    }
    lemma_ltransform_from(la, lb, a2, b2, xa, xb, s2);
}

#[verifier::rlimit(100)]
#[verifier::spinoff_prover]
proof fn lemma_ltransform_retain_delete(la: Seq<LPrim>, lb: Seq<LPrim>, a: Seq<LPrim>, b: Seq<LPrim>, xa: Seq<Seq<u8>>, xb: Seq<Seq<u8>>, s: Seq<Seq<u8>>)
    requires
        lsrc_len(a) == s.len(),
        lsrc_len(b) == s.len(),
        lsrc_len(lb) == xa.len(),
        lsrc_len(la) == xb.len(),
        apply_lines(lb, xa) == apply_lines(la, xb),
        l_nonzero(a),
        l_nonzero(b),
        line_fits(a, s),
        line_fits(b, s),
        mods_ok(a),
        mods_ok(b),
        a.len() > 0,
        b.len() > 0,
        a[0] is Retain && b[0] is Delete,
    ensures
        apply_lines(transform_lines_from(la, lb, a, b).1, xa + apply_lines(a, s)) == apply_lines(
            transform_lines_from(la, lb, a, b).0,
            xb + apply_lines(b, s),
        ),
        lsrc_len(transform_lines_from(la, lb, a, b).1) == lsrc_len(lb) + ltgt_len(a),
        lsrc_len(transform_lines_from(la, lb, a, b).0) == lsrc_len(la) + ltgt_len(b),
    decreases a.len() + b.len(), 0int,
{
    lemma_lunfold(a);
    lemma_lunfold(b);
    lemma_line_fits_unfold(a, s);
    lemma_line_fits_unfold(b, s);
    lemma_l_nonzero_rest(a);
    lemma_l_nonzero_rest(b);
    lemma_mods_ok_rest(a);
    lemma_mods_ok_rest(b);
    let a1 = a.drop_first();
    let b1 = b.drop_first();
    let x = a[0]->Retain_0;
    let y = b[0]->Delete_0;
    let m = if x < y { x } else { y };
    let h = s.take(m as int);
    let s2 = s.skip(m as int);
    let a2 = if x <= y { a1 } else { a.update(0, LPrim::Retain((x - y) as nat)) };
    let b2 = if y <= x { b1 } else { b.update(0, LPrim::Delete((y - x) as nat)) };
    lemma_lunfold(a2);
    lemma_lunfold(b2);
    if x > y {
        assert(a2.drop_first() =~= a1);
    }
    if y > x {
        assert(b2.drop_first() =~= b1);
    }
    assert(l_nonzero(a2));
    assert(l_nonzero(b2));
    lemma_mods_ok_head(a, a2);
    lemma_mods_ok_head(b, b2);
    assert(line_fits(a2, s2)) by {
        if x > y {
            assert(s2.skip(x - y) =~= s.skip(x as int));
        } else {
            assert(s2 =~= s.skip(x as int));
        }
    }
    assert(line_fits(b2, s2)) by {
        if y > x {
            assert(s2.skip(y - x) =~= s.skip(y as int));
        } else {
            assert(s2 =~= s.skip(y as int));
        }
    }
    assert(apply_lines(a, s) =~= h + apply_lines(a2, s2)) by {
        if x > y {
            assert(s.take(x as int) =~= h + s2.take(x - y));
            assert(s.skip(x as int) =~= s2.skip(x - y));
        } else {
            assert(s.skip(x as int) =~= s2);
        }
    }
    assert(apply_lines(b, s) =~= apply_lines(b2, s2)) by {
        if y > x {
            assert(s.skip(y as int) =~= s2.skip(y - x));
        } else {
            assert(s.skip(y as int) =~= s2);
        }
    }
    lemma_lapply_single(LPrim::Delete(m), h);
    lemma_llen_push_line(lb, LPrim::Delete(m));
    lemma_lapply_push(lb, LPrim::Delete(m), xa + h);
    assert((xa + h).take(xa.len() as int) =~= xa);
    assert((xa + h).skip(xa.len() as int) =~= h);
    assert(apply_lines(lb, xa) + Seq::<Seq<u8>>::empty() =~= apply_lines(lb, xa));
    lemma_ltransform_from(la, push_line(lb, LPrim::Delete(m)), a2, b2, xa + h, xb, s2);
    assert(xa + apply_lines(a, s) =~= (xa + h) + apply_lines(a2, s2));
}

#[verifier::rlimit(100)]
#[verifier::spinoff_prover]
proof fn lemma_ltransform_delete_retain(la: Seq<LPrim>, lb: Seq<LPrim>, a: Seq<LPrim>, b: Seq<LPrim>, xa: Seq<Seq<u8>>, xb: Seq<Seq<u8>>, s: Seq<Seq<u8>>)
    requires
        lsrc_len(a) == s.len(),
        lsrc_len(b) == s.len(),
        lsrc_len(lb) == xa.len(),
        lsrc_len(la) == xb.len(),
        apply_lines(lb, xa) == apply_lines(la, xb),
        l_nonzero(a),
        l_nonzero(b),
        line_fits(a, s),
        line_fits(b, s),
        mods_ok(a),
        mods_ok(b),
        a.len() > 0,
        b.len() > 0,
        a[0] is Delete && b[0] is Retain,
    ensures
        apply_lines(transform_lines_from(la, lb, a, b).1, xa + apply_lines(a, s)) == apply_lines(
            transform_lines_from(la, lb, a, b).0,
            xb + apply_lines(b, s),
        ),
        lsrc_len(transform_lines_from(la, lb, a, b).1) == lsrc_len(lb) + ltgt_len(a),
        lsrc_len(transform_lines_from(la, lb, a, b).0) == lsrc_len(la) + ltgt_len(b),
    decreases a.len() + b.len(), 0int,
{
    lemma_lunfold(a);
    lemma_lunfold(b);
    lemma_line_fits_unfold(a, s);
    lemma_line_fits_unfold(b, s);
    lemma_l_nonzero_rest(a);
    lemma_l_nonzero_rest(b);
    lemma_mods_ok_rest(a);
    lemma_mods_ok_rest(b);
    let a1 = a.drop_first();
    let b1 = b.drop_first();
    let x = a[0]->Delete_0;
    let y = b[0]->Retain_0;
    let m = if x < y { x } else { y };
    let h = s.take(m as int);
    let s2 = s.skip(m as int);
    let a2 = if x <= y { a1 } else { a.update(0, LPrim::Delete((x - y) as nat)) };
    let b2 = if y <= x { b1 } else { b.update(0, LPrim::Retain((y - x) as nat)) };
    lemma_lunfold(a2);
    lemma_lunfold(b2);
    if x > y {
        assert(a2.drop_first() =~= a1);
    }
    if y > x {
        assert(b2.drop_first() =~= b1);
    }
    assert(l_nonzero(a2));
    assert(l_nonzero(b2));
    lemma_mods_ok_head(a, a2);
    lemma_mods_ok_head(b, b2);
    assert(line_fits(a2, s2)) by {
        if x > y {
            assert(s2.skip(x - y) =~= s.skip(x as int));
        } else {
            assert(s2 =~= s.skip(x as int));
        }
    }
    assert(line_fits(b2, s2)) by {
        if y > x {
            assert(s2.skip(y - x) =~= s.skip(y as int));
        } else {
            assert(s2 =~= s.skip(y as int));
        }
    }
    assert(apply_lines(a, s) =~= apply_lines(a2, s2)) by {
        if x > y {
            assert(s.skip(x as int) =~= s2.skip(x - y));
        } else {
            assert(s.skip(x as int) =~= s2);
        }
    }
    assert(apply_lines(b, s) =~= h + apply_lines(b2, s2)) by {
        if y > x {
            assert(s.take(y as int) =~= h + s2.take(y - x));
            assert(s.skip(y as int) =~= s2.skip(y - x));
        } else {
            assert(s.skip(y as int) =~= s2);
        }
    }
    lemma_lapply_single(LPrim::Delete(m), h);
    lemma_llen_push_line(la, LPrim::Delete(m));
    lemma_lapply_push(la, LPrim::Delete(m), xb + h);
    assert((xb + h).take(xb.len() as int) =~= xb);
    assert((xb + h).skip(xb.len() as int) =~= h);
    assert(apply_lines(la, xb) + Seq::<Seq<u8>>::empty() =~= apply_lines(la, xb));
    lemma_ltransform_from(push_line(la, LPrim::Delete(m)), lb, a2, b2, xa, xb + h, s2);
    assert(xb + apply_lines(b, s) =~= (xb + h) + apply_lines(b2, s2));
}

#[verifier::rlimit(100)]
#[verifier::spinoff_prover]
proof fn lemma_ltransform_modify_modify(la: Seq<LPrim>, lb: Seq<LPrim>, a: Seq<LPrim>, b: Seq<LPrim>, xa: Seq<Seq<u8>>, xb: Seq<Seq<u8>>, s: Seq<Seq<u8>>)
    requires
        lsrc_len(a) == s.len(),
        lsrc_len(b) == s.len(),
        lsrc_len(lb) == xa.len(),
        lsrc_len(la) == xb.len(),
        apply_lines(lb, xa) == apply_lines(la, xb),
        l_nonzero(a),
        l_nonzero(b),
        line_fits(a, s),
        line_fits(b, s),
        mods_ok(a),
        mods_ok(b),
        a.len() > 0,
        b.len() > 0,
        a[0] is Modify && b[0] is Modify,
    ensures
        apply_lines(transform_lines_from(la, lb, a, b).1, xa + apply_lines(a, s)) == apply_lines(
            transform_lines_from(la, lb, a, b).0,
            xb + apply_lines(b, s),
        ),
        lsrc_len(transform_lines_from(la, lb, a, b).1) == lsrc_len(lb) + ltgt_len(a),
        lsrc_len(transform_lines_from(la, lb, a, b).0) == lsrc_len(la) + ltgt_len(b),
    decreases a.len() + b.len(), 0int,
{
    lemma_lunfold(a);
    lemma_lunfold(b);
    lemma_line_fits_unfold(a, s);
    lemma_line_fits_unfold(b, s);
    lemma_l_nonzero_rest(a);
    lemma_l_nonzero_rest(b);
    lemma_mods_ok_rest(a);
    lemma_mods_ok_rest(b);
    let a1 = a.drop_first();
    let b1 = b.drop_first();
    let c = a[0]->Modify_0;
    let d = b[0]->Modify_0;
    let l = s[0];
    let s2 = s.skip(1);
    let h = s.take(1);
    assert(h =~= seq![l]);
    lemma_mods_ok_at(a, 0);
    lemma_mods_ok_at(b, 0);
    assert(char_transformable(c, d));
    let (c2, d2) = transform_ops(c, d);
    lemma_transform_converges(c, d, l);
    lemma_apply_len(c, l);
    lemma_apply_len(d, l);
    let ca = apply_bytes(c, l);
    let da = apply_bytes(d, l);
    lemma_lapply_single(LPrim::Modify(d2), seq![ca]);
    lemma_lapply_single(LPrim::Modify(c2), seq![da]);
    lemma_lpush_both(lb, la, LPrim::Modify(d2), LPrim::Modify(c2), xa, xb, seq![ca], seq![da]);
    lemma_ltransform_from(push_line(la, LPrim::Modify(c2)), push_line(lb, LPrim::Modify(d2)), a1, b1, xa + seq![ca], xb + seq![da], s2);
    assert(apply_lines(a, s) == seq![ca] + apply_lines(a1, s2));
    assert(apply_lines(b, s) == seq![da] + apply_lines(b1, s2));
    assert(xa + apply_lines(a, s) =~= (xa + seq![ca]) + apply_lines(a1, s2));
    assert(xb + apply_lines(b, s) =~= (xb + seq![da]) + apply_lines(b1, s2));
}

#[verifier::rlimit(100)]
#[verifier::spinoff_prover]
proof fn lemma_ltransform_modify_retain(la: Seq<LPrim>, lb: Seq<LPrim>, a: Seq<LPrim>, b: Seq<LPrim>, xa: Seq<Seq<u8>>, xb: Seq<Seq<u8>>, s: Seq<Seq<u8>>)
    requires
        lsrc_len(a) == s.len(),
        lsrc_len(b) == s.len(),
        lsrc_len(lb) == xa.len(),
        lsrc_len(la) == xb.len(),
        apply_lines(lb, xa) == apply_lines(la, xb),
        l_nonzero(a),
        l_nonzero(b),
        line_fits(a, s),
        line_fits(b, s),
        mods_ok(a),
        mods_ok(b),
        a.len() > 0,
        b.len() > 0,
        a[0] is Modify && b[0] is Retain,
    ensures
        apply_lines(transform_lines_from(la, lb, a, b).1, xa + apply_lines(a, s)) == apply_lines(
            transform_lines_from(la, lb, a, b).0,
            xb + apply_lines(b, s),
        ),
        lsrc_len(transform_lines_from(la, lb, a, b).1) == lsrc_len(lb) + ltgt_len(a),
        lsrc_len(transform_lines_from(la, lb, a, b).0) == lsrc_len(la) + ltgt_len(b),
    decreases a.len() + b.len(), 0int,
{
    lemma_lunfold(a);
    lemma_lunfold(b);
    lemma_line_fits_unfold(a, s);
    lemma_line_fits_unfold(b, s);
    lemma_l_nonzero_rest(a);
    lemma_l_nonzero_rest(b);
    lemma_mods_ok_rest(a);
    lemma_mods_ok_rest(b);
    let a1 = a.drop_first();
    let b1 = b.drop_first();
    let c = a[0]->Modify_0;
    let y = b[0]->Retain_0;
    let l = s[0];
    let s2 = s.skip(1);
    let ca = apply_bytes(c, l);
    let b2 = drop_one(b);
    lemma_drop_one(b);
    lemma_mods_ok_drop_one(b);
    assert(line_fits(b2, s2)) by {
        if y > 1 {
            assert(b2[0] == LPrim::Retain((y - 1) as nat));
            assert(b2.drop_first() =~= b1);
            assert(s2.skip(y - 1) =~= s.skip(y as int));
        } else {
            assert(s2 =~= s.skip(y as int));
        }
    }
    lemma_lapply_single(LPrim::Retain(1), seq![ca]);
    lemma_lapply_single(LPrim::Modify(c), seq![l]);
    lemma_lpush_both(lb, la, LPrim::Retain(1), LPrim::Modify(c), xa, xb, seq![ca], seq![l]);
    lemma_ltransform_from(push_line(la, LPrim::Modify(c)), push_line(lb, LPrim::Retain(1)), a1, b2, xa + seq![ca], xb + seq![l], s2);
    assert(apply_lines(a, s) == seq![ca] + apply_lines(a1, s2));
    assert(apply_lines(b, s) =~= seq![l] + apply_lines(b2, s2)) by {
        if y > 1 {
            assert(b2[0] == LPrim::Retain((y - 1) as nat));
            assert(b2.drop_first() =~= b1);
            assert(s.take(y as int) =~= seq![l] + s2.take(y - 1));
            assert(s.skip(y as int) =~= s2.skip(y - 1));
        } else {
            assert(s.take(y as int) =~= seq![l]);
            assert(s.skip(y as int) =~= s2);
        }
    }
    assert(xa + apply_lines(a, s) =~= (xa + seq![ca]) + apply_lines(a1, s2));
    assert(xb + apply_lines(b, s) =~= (xb + seq![l]) + apply_lines(b2, s2));
}

#[verifier::rlimit(100)]
#[verifier::spinoff_prover]
proof fn lemma_ltransform_retain_modify(la: Seq<LPrim>, lb: Seq<LPrim>, a: Seq<LPrim>, b: Seq<LPrim>, xa: Seq<Seq<u8>>, xb: Seq<Seq<u8>>, s: Seq<Seq<u8>>)
    requires
        lsrc_len(a) == s.len(),
        lsrc_len(b) == s.len(),
        lsrc_len(lb) == xa.len(),
        lsrc_len(la) == xb.len(),
        apply_lines(lb, xa) == apply_lines(la, xb),
        l_nonzero(a),
        l_nonzero(b),
        line_fits(a, s),
        line_fits(b, s),
        mods_ok(a),
        mods_ok(b),
        a.len() > 0,
        b.len() > 0,
        a[0] is Retain && b[0] is Modify,
    ensures
        apply_lines(transform_lines_from(la, lb, a, b).1, xa + apply_lines(a, s)) == apply_lines(
            transform_lines_from(la, lb, a, b).0,
            xb + apply_lines(b, s),
        ),
        lsrc_len(transform_lines_from(la, lb, a, b).1) == lsrc_len(lb) + ltgt_len(a),
        lsrc_len(transform_lines_from(la, lb, a, b).0) == lsrc_len(la) + ltgt_len(b),
    decreases a.len() + b.len(), 0int,
{
    lemma_lunfold(a);
    lemma_lunfold(b);
    lemma_line_fits_unfold(a, s);
    lemma_line_fits_unfold(b, s);
    lemma_l_nonzero_rest(a);
    lemma_l_nonzero_rest(b);
    lemma_mods_ok_rest(a);
    lemma_mods_ok_rest(b);
    let a1 = a.drop_first();
    let b1 = b.drop_first();
    let d = b[0]->Modify_0;
    let x = a[0]->Retain_0;
    let l = s[0];
    let s2 = s.skip(1);
    let da = apply_bytes(d, l);
    let a2 = drop_one(a);
    lemma_drop_one(a);
    lemma_mods_ok_drop_one(a);
    assert(line_fits(a2, s2)) by {
        if x > 1 {
            assert(a2[0] == LPrim::Retain((x - 1) as nat));
            assert(a2.drop_first() =~= a1);
            assert(s2.skip(x - 1) =~= s.skip(x as int));
        } else {
            assert(s2 =~= s.skip(x as int));
        }
    }
    lemma_lapply_single(LPrim::Retain(1), seq![da]);
    lemma_lapply_single(LPrim::Modify(d), seq![l]);
    lemma_lpush_both(lb, la, LPrim::Modify(d), LPrim::Retain(1), xa, xb, seq![l], seq![da]);
    lemma_ltransform_from(push_line(la, LPrim::Retain(1)), push_line(lb, LPrim::Modify(d)), a2, b1, xa + seq![l], xb + seq![da], s2);
    assert(apply_lines(b, s) == seq![da] + apply_lines(b1, s2));
    assert(apply_lines(a, s) =~= seq![l] + apply_lines(a2, s2)) by {
        if x > 1 {
            assert(a2[0] == LPrim::Retain((x - 1) as nat));
            assert(a2.drop_first() =~= a1);
            assert(s.take(x as int) =~= seq![l] + s2.take(x - 1));
            assert(s.skip(x as int) =~= s2.skip(x - 1));
        } else {
            assert(s.take(x as int) =~= seq![l]);
            assert(s.skip(x as int) =~= s2);
        }
    }
    assert(xa + apply_lines(a, s) =~= (xa + seq![l]) + apply_lines(a2, s2));
    assert(xb + apply_lines(b, s) =~= (xb + seq![da]) + apply_lines(b1, s2));
}

#[verifier::rlimit(100)]
#[verifier::spinoff_prover]
proof fn lemma_ltransform_modify_delete(la: Seq<LPrim>, lb: Seq<LPrim>, a: Seq<LPrim>, b: Seq<LPrim>, xa: Seq<Seq<u8>>, xb: Seq<Seq<u8>>, s: Seq<Seq<u8>>)
    requires
        lsrc_len(a) == s.len(),
        lsrc_len(b) == s.len(),
        lsrc_len(lb) == xa.len(),
        lsrc_len(la) == xb.len(),
        apply_lines(lb, xa) == apply_lines(la, xb),
        l_nonzero(a),
        l_nonzero(b),
        line_fits(a, s),
        line_fits(b, s),
        mods_ok(a),
        mods_ok(b),
        a.len() > 0,
        b.len() > 0,
        a[0] is Modify && b[0] is Delete,
    ensures
        apply_lines(transform_lines_from(la, lb, a, b).1, xa + apply_lines(a, s)) == apply_lines(
            transform_lines_from(la, lb, a, b).0,
            xb + apply_lines(b, s),
        ),
        lsrc_len(transform_lines_from(la, lb, a, b).1) == lsrc_len(lb) + ltgt_len(a),
        lsrc_len(transform_lines_from(la, lb, a, b).0) == lsrc_len(la) + ltgt_len(b),
    decreases a.len() + b.len(), 0int,
{
    lemma_lunfold(a);
    lemma_lunfold(b);
    lemma_line_fits_unfold(a, s);
    lemma_line_fits_unfold(b, s);
    lemma_l_nonzero_rest(a);
    lemma_l_nonzero_rest(b);
    lemma_mods_ok_rest(a);
    lemma_mods_ok_rest(b);
    let a1 = a.drop_first();
    let b1 = b.drop_first();
    let c = a[0]->Modify_0;
    let y = b[0]->Delete_0;
    let l = s[0];
    let s2 = s.skip(1);
    let ca = apply_bytes(c, l);
    let b2 = drop_one(b);
    lemma_drop_one(b);
    lemma_mods_ok_drop_one(b);
    assert(line_fits(b2, s2)) by {
        if y > 1 {
            assert(b2[0] == LPrim::Delete((y - 1) as nat));
            assert(b2.drop_first() =~= b1);
            assert(s2.skip(y - 1) =~= s.skip(y as int));
        } else {
            assert(s2 =~= s.skip(y as int));
        }
    }
    lemma_lapply_single(LPrim::Delete(1), seq![ca]);
    lemma_llen_push_line(lb, LPrim::Delete(1));
    lemma_lapply_push(lb, LPrim::Delete(1), xa + seq![ca]);
    assert((xa + seq![ca]).take(xa.len() as int) =~= xa);
    assert((xa + seq![ca]).skip(xa.len() as int) =~= seq![ca]);
    assert(apply_lines(lb, xa) + Seq::<Seq<u8>>::empty() =~= apply_lines(lb, xa));
    lemma_ltransform_from(la, push_line(lb, LPrim::Delete(1)), a1, b2, xa + seq![ca], xb, s2);
    assert(apply_lines(a, s) == seq![ca] + apply_lines(a1, s2));
    assert(apply_lines(b, s) =~= apply_lines(b2, s2)) by {
        if y > 1 {
            assert(b2[0] == LPrim::Delete((y - 1) as nat));
            assert(b2.drop_first() =~= b1);
            assert(s.skip(y as int) =~= s2.skip(y - 1));
        } else {
            assert(s.skip(y as int) =~= s2);
        }
    }
    assert(xa + apply_lines(a, s) =~= (xa + seq![ca]) + apply_lines(a1, s2));
}

#[verifier::rlimit(100)]
#[verifier::spinoff_prover]
proof fn lemma_ltransform_delete_modify(la: Seq<LPrim>, lb: Seq<LPrim>, a: Seq<LPrim>, b: Seq<LPrim>, xa: Seq<Seq<u8>>, xb: Seq<Seq<u8>>, s: Seq<Seq<u8>>)
    requires
        lsrc_len(a) == s.len(),
        lsrc_len(b) == s.len(),
        lsrc_len(lb) == xa.len(),
        lsrc_len(la) == xb.len(),
        apply_lines(lb, xa) == apply_lines(la, xb),
        l_nonzero(a),
        l_nonzero(b),
        line_fits(a, s),
        line_fits(b, s),
        mods_ok(a),
        mods_ok(b),
        a.len() > 0,
        b.len() > 0,
        a[0] is Delete && b[0] is Modify,
    ensures
        apply_lines(transform_lines_from(la, lb, a, b).1, xa + apply_lines(a, s)) == apply_lines(
            transform_lines_from(la, lb, a, b).0,
            xb + apply_lines(b, s),
        ),
        lsrc_len(transform_lines_from(la, lb, a, b).1) == lsrc_len(lb) + ltgt_len(a),
        lsrc_len(transform_lines_from(la, lb, a, b).0) == lsrc_len(la) + ltgt_len(b),
    decreases a.len() + b.len(), 0int,
{
    lemma_lunfold(a);
    lemma_lunfold(b);
    lemma_line_fits_unfold(a, s);
    lemma_line_fits_unfold(b, s);
    lemma_l_nonzero_rest(a);
    lemma_l_nonzero_rest(b);
    lemma_mods_ok_rest(a);
    lemma_mods_ok_rest(b);
    let a1 = a.drop_first();
    let b1 = b.drop_first();
    let d = b[0]->Modify_0;
    let x = a[0]->Delete_0;
    let l = s[0];
    let s2 = s.skip(1);
    let da = apply_bytes(d, l);
    let a2 = drop_one(a);
    lemma_drop_one(a);
    lemma_mods_ok_drop_one(a);
    assert(line_fits(a2, s2)) by {
        if x > 1 {
            assert(a2[0] == LPrim::Delete((x - 1) as nat));
            assert(a2.drop_first() =~= a1);
            assert(s2.skip(x - 1) =~= s.skip(x as int));
        } else {
            assert(s2 =~= s.skip(x as int));
        }
    }
    lemma_lapply_single(LPrim::Delete(1), seq![da]);
    lemma_llen_push_line(la, LPrim::Delete(1));
    lemma_lapply_push(la, LPrim::Delete(1), xb + seq![da]);
    assert((xb + seq![da]).take(xb.len() as int) =~= xb);
    assert((xb + seq![da]).skip(xb.len() as int) =~= seq![da]);
    assert(apply_lines(la, xb) + Seq::<Seq<u8>>::empty() =~= apply_lines(la, xb));
    lemma_ltransform_from(push_line(la, LPrim::Delete(1)), lb, a2, b1, xa, xb + seq![da], s2);
    assert(apply_lines(b, s) == seq![da] + apply_lines(b1, s2));
    assert(apply_lines(a, s) =~= apply_lines(a2, s2)) by {
        if x > 1 {
            assert(a2[0] == LPrim::Delete((x - 1) as nat));
            assert(a2.drop_first() =~= a1);
            assert(s.skip(x as int) =~= s2.skip(x - 1));
        } else {
            assert(s.skip(x as int) =~= s2);
        }
    }
    assert(xb + apply_lines(b, s) =~= (xb + seq![da]) + apply_lines(b1, s2));
}

/// Transformation appends through the builder, so it keeps the results canonical.
proof fn lemma_transform_lines_canonical(la: Seq<LPrim>, lb: Seq<LPrim>, a: Seq<LPrim>, b: Seq<LPrim>)
    requires
        lcanonical(la),
        lcanonical(lb),
    ensures
        lcanonical(transform_lines_from(la, lb, a, b).0),
        lcanonical(transform_lines_from(la, lb, a, b).1),
    decreases a.len() + b.len(),
{
    let a1 = a.drop_first();
    let b1 = b.drop_first();
    if a.len() > 0 && a[0] is Insert {
        lemma_lcanonical_push_line(la, a[0]);
        lemma_lcanonical_push_line(lb, LPrim::Retain(1));
        lemma_transform_lines_canonical(push_line(la, a[0]), push_line(lb, LPrim::Retain(1)), a1, b);
    } else if b.len() > 0 && b[0] is Insert {
        lemma_lcanonical_push_line(la, LPrim::Retain(1));
        lemma_lcanonical_push_line(lb, b[0]);
        lemma_transform_lines_canonical(push_line(la, LPrim::Retain(1)), push_line(lb, b[0]), a, b1);
    } else if a.len() == 0 || b.len() == 0 {
    } else {
        match (a[0], b[0]) {
            (LPrim::Retain(x), LPrim::Retain(y)) => {
                let m = if x < y { x } else { y };
                lemma_lcanonical_push_line(la, LPrim::Retain(m));
                lemma_lcanonical_push_line(lb, LPrim::Retain(m));
                let (la2, lb2) = (push_line(la, LPrim::Retain(m)), push_line(lb, LPrim::Retain(m)));
                if x < y {
                    lemma_transform_lines_canonical(la2, lb2, a1, b.update(0, LPrim::Retain((y - x) as nat)));
                } else if x == y {
                    lemma_transform_lines_canonical(la2, lb2, a1, b1);
                } else {
                    lemma_transform_lines_canonical(la2, lb2, a.update(0, LPrim::Retain((x - y) as nat)), b1);
                }
            },
            (LPrim::Delete(x), LPrim::Delete(y)) => {
                if x < y {
                    lemma_transform_lines_canonical(la, lb, a1, b.update(0, LPrim::Delete((y - x) as nat)));
                } else if x == y {
                    lemma_transform_lines_canonical(la, lb, a1, b1);
                } else {
                    lemma_transform_lines_canonical(la, lb, a.update(0, LPrim::Delete((x - y) as nat)), b1);
                }
            },
            (LPrim::Modify(c), LPrim::Modify(d)) => {
                let (c2, d2) = if char_transformable(c, d) { transform_ops(c, d) } else { (c, d) };
                lemma_lcanonical_push_line(la, LPrim::Modify(c2));
                lemma_lcanonical_push_line(lb, LPrim::Modify(d2));
                lemma_transform_lines_canonical(push_line(la, LPrim::Modify(c2)), push_line(lb, LPrim::Modify(d2)), a1, b1);
            },
            (LPrim::Retain(x), LPrim::Delete(y)) => {
                let m = if x < y { x } else { y };
                lemma_lcanonical_push_line(lb, LPrim::Delete(m));
                let lb2 = push_line(lb, LPrim::Delete(m));
                if x < y {
                    lemma_transform_lines_canonical(la, lb2, a1, b.update(0, LPrim::Delete((y - x) as nat)));
                } else if x == y {
                    lemma_transform_lines_canonical(la, lb2, a1, b1);
                } else {
                    lemma_transform_lines_canonical(la, lb2, a.update(0, LPrim::Retain((x - y) as nat)), b1);
                }
            },
            (LPrim::Delete(x), LPrim::Retain(y)) => {
                let m = if x < y { x } else { y };
                lemma_lcanonical_push_line(la, LPrim::Delete(m));
                let la2 = push_line(la, LPrim::Delete(m));
                if x < y {
                    lemma_transform_lines_canonical(la2, lb, a1, b.update(0, LPrim::Retain((y - x) as nat)));
                } else if x == y {
                    lemma_transform_lines_canonical(la2, lb, a1, b1);
                } else {
                    lemma_transform_lines_canonical(la2, lb, a.update(0, LPrim::Delete((x - y) as nat)), b1);
                }
            },
            (LPrim::Modify(c), LPrim::Retain(_)) => {
                lemma_lcanonical_push_line(la, LPrim::Modify(c));
                lemma_lcanonical_push_line(lb, LPrim::Retain(1));
                lemma_transform_lines_canonical(push_line(la, LPrim::Modify(c)), push_line(lb, LPrim::Retain(1)), a1, drop_one(b));
            },
            (LPrim::Retain(_), LPrim::Modify(d)) => {
                lemma_lcanonical_push_line(la, LPrim::Retain(1));
                lemma_lcanonical_push_line(lb, LPrim::Modify(d));
                lemma_transform_lines_canonical(push_line(la, LPrim::Retain(1)), push_line(lb, LPrim::Modify(d)), drop_one(a), b1);
            },
            (LPrim::Modify(_), LPrim::Delete(_)) => {
                lemma_lcanonical_push_line(lb, LPrim::Delete(1));
                lemma_transform_lines_canonical(la, push_line(lb, LPrim::Delete(1)), a1, drop_one(b));
            },
            (LPrim::Delete(_), LPrim::Modify(_)) => {
                lemma_lcanonical_push_line(la, LPrim::Delete(1));
                lemma_transform_lines_canonical(push_line(la, LPrim::Delete(1)), lb, drop_one(a), b1);
            },
            _ => {},
        }
    }
}

/// Line-wise transformation converges: for operations `a` and `b` on common
/// lines `s` that their modifications fit, with `(a2, b2)` their
/// transformation, `a` then `b2` and `b` then `a2` give the same lines, and
/// so do the compositions `a ∘ b2` and `b ∘ a2`.
pub proof fn lemma_transform_lines_converges(a: Seq<LPrim>, b: Seq<LPrim>, s: Seq<Seq<u8>>)
    requires
        l_nonzero(a),
        l_nonzero(b),
        mods_ok(a),
        mods_ok(b),
        lsrc_len(a) == s.len(),
        lsrc_len(b) == s.len(),
        line_fits(a, s),
        line_fits(b, s),
    ensures
        lsrc_len(transform_lines(a, b).1) == ltgt_len(a),
        lsrc_len(transform_lines(a, b).0) == ltgt_len(b),
        apply_lines(transform_lines(a, b).1, apply_lines(a, s)) == apply_lines(transform_lines(a, b).0, apply_lines(b, s)),
        apply_lines(compose_lines(a, transform_lines(a, b).1), s) == apply_lines(compose_lines(b, transform_lines(a, b).0), s),
{
    let e = Seq::<Seq<u8>>::empty();
    let n = Seq::<LPrim>::empty();
    assert(lsrc_len(n) == 0);
    assert(apply_lines(n, e) =~= e);
    lemma_ltransform_from(n, n, a, b, e, e, s);
    assert(e + apply_lines(a, s) =~= apply_lines(a, s));
    assert(e + apply_lines(b, s) =~= apply_lines(b, s));
    assert(lcanonical(n));
    lemma_transform_lines_canonical(n, n, a, b);
    let (a2, b2) = transform_lines(a, b);
    assert(l_nonzero(a2));
    assert(l_nonzero(b2));
    lemma_compose_lines_apply(a, b2, s);
    lemma_compose_lines_apply(b, a2, s);
}


/// The identity line-wise operation on `n` lines.
pub open spec fn nop_lines(n: nat) -> Seq<LPrim> {
    push_line(Seq::empty(), LPrim::Retain(n))
}

/// Each step of `a` appended in turn to `acc` the way the builder does.
pub open spec fn push_all_lines(acc: Seq<LPrim>, a: Seq<LPrim>) -> Seq<LPrim>
    decreases a.len(),
{
    if a.len() == 0 {
        acc
    } else {
        push_all_lines(push_line(acc, a[0]), a.drop_first())
    }
}

proof fn lemma_push_all_lines_canonical(acc: Seq<LPrim>, a: Seq<LPrim>)
    requires
        lcanonical(acc + a),
    ensures
        push_all_lines(acc, a) == acc + a,
    decreases a.len(),
{
    if a.len() == 0 {
        assert(acc + a =~= acc);
    } else {
        let c = acc + a;
        assert(c[acc.len() as int] == a[0]);
        if acc.len() > 0 {
            assert(c[acc.len() - 1] == acc.last());
        }
        assert(push_line(acc, a[0]) == acc.push(a[0]));
        assert(acc.push(a[0]) + a.drop_first() =~= c);
        lemma_push_all_lines_canonical(acc.push(a[0]), a.drop_first());
    }
}

proof fn lemma_nop_lines(n: nat)
    ensures
        n == 0 ==> nop_lines(n) =~= Seq::<LPrim>::empty(),
        n > 0 ==> nop_lines(n) =~= seq![LPrim::Retain(n)],
{
}

proof fn lemma_compose_lines_nop_right(acc: Seq<LPrim>, a: Seq<LPrim>)
    requires
        l_nonzero(a),
    ensures
        compose_lines_from(acc, a, nop_lines(ltgt_len(a))) == push_all_lines(acc, a),
    decreases a.len(),
{
    lemma_lunfold(a);
    let n = ltgt_len(a);
    lemma_nop_lines(n);
    if a.len() > 0 {
        let a1 = a.drop_first();
        lemma_l_nonzero_rest(a);
        lemma_nop_lines(ltgt_len(a1));
        lemma_compose_lines_nop_right(push_line(acc, a[0]), a1);
        if n > 0 {
            let b = nop_lines(n);
            assert(b.drop_first() =~= Seq::<LPrim>::empty());
            match a[0] {
                LPrim::Retain(x) => {
                    if x < n {
                        assert(b.update(0, LPrim::Retain((n - x) as nat)) =~= nop_lines(ltgt_len(a1)));
                    }
                },
                LPrim::Insert(_) | LPrim::Modify(_) => {
                    if n > 1 {
                        assert(drop_one(b) =~= nop_lines(ltgt_len(a1)));
                    } else {
                        assert(drop_one(b) =~= nop_lines(ltgt_len(a1)));
                    }
                },
                LPrim::Delete(_) => {},
            }
        }
    }
}

proof fn lemma_compose_lines_nop_left(acc: Seq<LPrim>, b: Seq<LPrim>)
    requires
        l_nonzero(b),
    ensures
        compose_lines_from(acc, nop_lines(lsrc_len(b)), b) == push_all_lines(acc, b),
    decreases b.len(),
{
    lemma_lunfold(b);
    let n = lsrc_len(b);
    lemma_nop_lines(n);
    if b.len() > 0 {
        let b1 = b.drop_first();
        lemma_l_nonzero_rest(b);
        lemma_nop_lines(lsrc_len(b1));
        lemma_compose_lines_nop_left(push_line(acc, b[0]), b1);
        if n > 0 {
            let a = nop_lines(n);
            assert(a.drop_first() =~= Seq::<LPrim>::empty());
            match b[0] {
                LPrim::Retain(y) => {
                    if y < n {
                        assert(a.update(0, LPrim::Retain((n - y) as nat)) =~= nop_lines(lsrc_len(b1)));
                    }
                },
                LPrim::Delete(y) => {
                    if y < n {
                        assert(a.update(0, LPrim::Retain((n - y) as nat)) =~= nop_lines(lsrc_len(b1)));
                    }
                },
                LPrim::Modify(_) => {
                    assert(drop_one(a) =~= nop_lines(lsrc_len(b1)));
                },
                LPrim::Insert(_) => {},
            }
        }
    }
}

/// The identity line-wise operation is neutral for composition on either
/// side, and leaves lines as they are.
pub proof fn lemma_compose_lines_nop(a: Seq<LPrim>, s: Seq<Seq<u8>>)
    requires
        lcanonical(a),
    ensures
        compose_lines(a, nop_lines(ltgt_len(a))) == a,
        compose_lines(nop_lines(lsrc_len(a)), a) == a,
        apply_lines(nop_lines(s.len()), s) == s,
{
    let e = Seq::<LPrim>::empty();
    assert(e + a =~= a);
    lemma_push_all_lines_canonical(e, a);
    lemma_compose_lines_nop_right(e, a);
    lemma_compose_lines_nop_left(e, a);
    lemma_nop_lines(s.len());
    if s.len() > 0 {
        lemma_lapply_single(LPrim::Retain(s.len()), s);
    } else {
        assert(apply_lines(nop_lines(s.len()), s) =~= s);
    }
}

} // verus!
