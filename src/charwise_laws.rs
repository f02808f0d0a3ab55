//! The laws of the character-wise algebra.
use vstd::prelude::*;
use vstd::utf8::{valid_utf8, decode_utf8_encode_utf8};
use crate::text::{bytes_of, text_of};
use crate::charwise::{Prim, prim_src, prim_tgt, src_len, tgt_len, push_prim, merge, same_kind, prim_empty, apply_bytes, compose_from, compose_ops, lemma_apply_len, lemma_len_push, lemma_len_push_prim, transform_from, transform_ops, all_nonempty, lemma_src_zero_empty, canonical, nop_ops};

verus! {

proof fn lemma_single_len(p: Prim)
    ensures
        src_len(seq![p]) == prim_src(p),
        tgt_len(seq![p]) == prim_tgt(p),
{
    assert(seq![p].drop_first() =~= Seq::<Prim>::empty());
    assert(src_len(Seq::<Prim>::empty()) == 0);
    assert(tgt_len(Seq::<Prim>::empty()) == 0);
}

proof fn lemma_unfold(s: Seq<Prim>)
    ensures
        s.len() > 0 ==> src_len(s) == prim_src(s[0]) + src_len(s.drop_first()),
        s.len() > 0 ==> tgt_len(s) == prim_tgt(s[0]) + tgt_len(s.drop_first()),
{
}

proof fn lemma_apply_single(p: Prim, u: Seq<u8>)
    requires
        u.len() == prim_src(p),
    ensures
        apply_bytes(seq![p], u) == match p {
            Prim::Retain(_) => u,
            Prim::Insert(t) => t,
            Prim::Delete(_) => Seq::<u8>::empty(),
        },
{
    let s = seq![p];
    assert(s.drop_first() =~= Seq::<Prim>::empty());
    match p {
        Prim::Retain(n) => {
            assert(u.take(n as int) =~= u);
            assert(apply_bytes(s, u) =~= u.take(n as int) + apply_bytes(s.drop_first(), u.skip(n as int)));
        },
        Prim::Insert(t) => {
            assert(apply_bytes(s, u) =~= t + apply_bytes(s.drop_first(), u));
        },
        Prim::Delete(n) => {
            assert(apply_bytes(s, u) == apply_bytes(s.drop_first(), u.skip(n as int)));
        },
    }
}

/// Applying two runs of steps one after the other.
proof fn lemma_apply_concat(x: Seq<Prim>, y: Seq<Prim>, s: Seq<u8>)
    requires
        s.len() == src_len(x) + src_len(y),
    ensures
        apply_bytes(x + y, s) == apply_bytes(x, s.take(src_len(x) as int)) + apply_bytes(
            y,
            s.skip(src_len(x) as int),
        ),
    decreases x.len(),
{
    if x.len() == 0 {
        assert(x + y =~= y);
        assert(s.skip(0) =~= s);
        assert(apply_bytes(x, s.take(0)) =~= Seq::<u8>::empty());
    } else {
        let x1 = x.drop_first();
        let sx = src_len(x) as int;
        assert((x + y)[0] == x[0]);
        assert((x + y).drop_first() =~= x1 + y);
        match x[0] {
            Prim::Retain(n) => {
                let n = n as int;
                lemma_apply_concat(x1, y, s.skip(n));
                assert(s.take(sx).take(n) =~= s.take(n));
                assert(s.take(sx).skip(n) =~= s.skip(n).take(src_len(x1) as int));
                assert(s.skip(n).skip(src_len(x1) as int) =~= s.skip(sx));
            },
            Prim::Insert(t) => {
                lemma_apply_concat(x1, y, s);
            },
            Prim::Delete(n) => {
                let n = n as int;
                lemma_apply_concat(x1, y, s.skip(n));
                assert(s.take(sx).skip(n) =~= s.skip(n).take(src_len(x1) as int));
                assert(s.skip(n).skip(src_len(x1) as int) =~= s.skip(sx));
            },
        }
    }
}

/// Appending a step with the builder's fusing applies as the step after the run.
proof fn lemma_apply_push(acc: Seq<Prim>, p: Prim, s: Seq<u8>)
    requires
        s.len() == src_len(acc) + prim_src(p),
    ensures
        apply_bytes(push_prim(acc, p), s) == apply_bytes(acc, s.take(src_len(acc) as int)) + apply_bytes(
            seq![p],
            s.skip(src_len(acc) as int),
        ),
{
    let sa = src_len(acc) as int;
    let rest = s.skip(sa);
    lemma_apply_single(p, rest);
    if prim_empty(p) {
        assert(s.take(sa) =~= s);
        assert(apply_bytes(seq![p], rest) =~= Seq::<u8>::empty());
    } else if acc.len() > 0 && same_kind(acc.last(), p) {
        let init = acc.drop_last();
        let l = acc.last();
        let m = merge(l, p);
        assert(acc =~= init + seq![l]);
        assert(push_prim(acc, p) =~= init + seq![m]);
        lemma_len_push(init, l);
        assert(init.push(l) =~= acc);
        let si = src_len(init) as int;
        lemma_single_len(m);
        lemma_single_len(l);
        lemma_apply_concat(init, seq![m], s);
        lemma_apply_concat(init, seq![l], s.take(sa));
        assert(s.take(sa).take(si) =~= s.take(si));
        let u = s.skip(si);
        lemma_apply_single(m, u);
        lemma_apply_single(l, s.take(sa).skip(si));
        assert(s.take(sa).skip(si) =~= u.take(prim_src(l) as int));
        assert(rest =~= u.skip(prim_src(l) as int));
        match (l, p) {
            (Prim::Retain(a), Prim::Retain(b)) => {
                assert(u =~= u.take(a as int) + u.skip(a as int));
            },
            (Prim::Insert(a), Prim::Insert(b)) => {},
            (Prim::Delete(a), Prim::Delete(b)) => {
                assert(Seq::<u8>::empty() + Seq::<u8>::empty() =~= Seq::<u8>::empty());
            },
            _ => {},
        }
    } else {
        assert(push_prim(acc, p) =~= acc + seq![p]);
        lemma_single_len(p);
        lemma_apply_concat(acc, seq![p], s);
    }
}


/// The step `p`, emitted while reading `k` source bytes, followed by the rest
/// of a composition: the law for `compose_from` carries over one step.
proof fn lemma_compose_step(
    acc: Seq<Prim>,
    p: Prim,
    a2: Seq<Prim>,
    b2: Seq<Prim>,
    s1: Seq<u8>,
    s2: Seq<u8>,
    k: int,
)
    requires
        s1.len() == src_len(acc),
        0 <= k <= s2.len(),
        prim_src(p) == k,
        s2.len() - k == src_len(a2),
        tgt_len(a2) == src_len(b2),
        apply_bytes(compose_from(push_prim(acc, p), a2, b2), (s1 + s2.take(k)) + s2.skip(k)) == apply_bytes(
            push_prim(acc, p),
            s1 + s2.take(k),
        ) + apply_bytes(b2, apply_bytes(a2, s2.skip(k))),
    ensures
        apply_bytes(compose_from(push_prim(acc, p), a2, b2), s1 + s2) == apply_bytes(acc, s1) + apply_bytes(
            seq![p],
            s2.take(k),
        ) + apply_bytes(b2, apply_bytes(a2, s2.skip(k))),
{
    assert((s1 + s2.take(k)) + s2.skip(k) =~= s1 + s2);
    lemma_len_push(acc, p);
    lemma_apply_push(acc, p, s1 + s2.take(k));
    assert((s1 + s2.take(k)).take(s1.len() as int) =~= s1);
    assert((s1 + s2.take(k)).skip(s1.len() as int) =~= s2.take(k));
}

/// Composition is sequencing: applying `compose_from(acc, a, b)` to `s1 + s2`
/// gives `acc` on `s1`, followed by `a` and then `b` on `s2`.
#[verifier::rlimit(100)]
#[verifier::spinoff_prover]
proof fn lemma_compose_from(acc: Seq<Prim>, a: Seq<Prim>, b: Seq<Prim>, s1: Seq<u8>, s2: Seq<u8>)
    requires
        s1.len() == src_len(acc),
        s2.len() == src_len(a),
        tgt_len(a) == src_len(b),
    ensures
        apply_bytes(compose_from(acc, a, b), s1 + s2) == apply_bytes(acc, s1) + apply_bytes(b, apply_bytes(a, s2)),
        src_len(compose_from(acc, a, b)) == src_len(acc) + src_len(a),
        tgt_len(compose_from(acc, a, b)) == tgt_len(acc) + tgt_len(b),
    decreases a.len() + b.len(),
{
    let r = compose_from(acc, a, b);
    if a.len() == 0 && b.len() == 0 {
        assert(s1 + s2 =~= s1);
        assert(apply_bytes(b, apply_bytes(a, s2)) =~= Seq::<u8>::empty());
    } else if a.len() == 0 {
        let p = b[0];
        let b2 = b.drop_first();
        let aa = apply_bytes(a, s2);
        assert(aa =~= Seq::<u8>::empty());
        assert(s2 =~= Seq::<u8>::empty());
        lemma_single_len(p);
        assert(prim_src(p) == 0);
        lemma_unfold(a);
        lemma_unfold(b);
        lemma_unfold(a);
        lemma_unfold(b2);
        lemma_len_push_prim(acc, p);
        lemma_compose_from(push_prim(acc, p), a, b2, s1 + s2.take(0), s2.skip(0));
        lemma_compose_step(acc, p, a, b2, s1, s2, 0);
        lemma_apply_single(p, s2.take(0));
        match p {
            Prim::Retain(n) => {
                assert(aa.take(n as int) =~= Seq::<u8>::empty());
                assert(aa.skip(n as int) =~= aa);
            },
            Prim::Insert(t) => {},
            Prim::Delete(n) => {
                assert(aa.skip(n as int) =~= aa);
            },
        }
        assert(s2.skip(0) =~= s2);
    } else if b.len() == 0 {
        let p = a[0];
        let a2 = a.drop_first();
        let k = prim_src(p) as int;
        assert(tgt_len(a) == 0);
        lemma_unfold(a);
        lemma_unfold(b);
        lemma_unfold(a2);
        lemma_unfold(b);
        lemma_len_push_prim(acc, p);
        lemma_compose_from(push_prim(acc, p), a2, b, s1 + s2.take(k), s2.skip(k));
        lemma_compose_step(acc, p, a2, b, s1, s2, k);
        lemma_apply_single(p, s2.take(k));
        lemma_single_len(p);
        lemma_apply_len(seq![p], s2.take(k));
        assert(apply_bytes(b, apply_bytes(a2, s2.skip(k))) =~= Seq::<u8>::empty());
        assert(apply_bytes(b, apply_bytes(a, s2)) =~= Seq::<u8>::empty());
        assert(apply_bytes(seq![p], s2.take(k)) =~= Seq::<u8>::empty());
    } else {
        let a1 = a.drop_first();
        let b1 = b.drop_first();
        match (a[0], b[0]) {
            (Prim::Delete(n), _) => {
                let k = n as int;
                let p = Prim::Delete(n);
                lemma_unfold(a);
                lemma_unfold(b);
                lemma_unfold(a1);
                lemma_unfold(b);
                lemma_len_push_prim(acc, p);
                lemma_compose_from(push_prim(acc, p), a1, b, s1 + s2.take(k), s2.skip(k));
                lemma_compose_step(acc, p, a1, b, s1, s2, k);
                lemma_apply_single(p, s2.take(k));
                assert(apply_bytes(seq![p], s2.take(k)) + apply_bytes(b, apply_bytes(a1, s2.skip(k))) =~= apply_bytes(
                    b,
                    apply_bytes(a, s2),
                ));
            },
            (_, Prim::Insert(t)) => {
                let p = Prim::Insert(t);
                lemma_unfold(a);
                lemma_unfold(b);
                lemma_unfold(a);
                lemma_unfold(b1);
                lemma_len_push_prim(acc, p);
                lemma_compose_from(push_prim(acc, p), a, b1, s1 + s2.take(0), s2.skip(0));
                lemma_compose_step(acc, p, a, b1, s1, s2, 0);
                lemma_apply_single(p, s2.take(0));
                assert(s2.skip(0) =~= s2);
                assert(apply_bytes(seq![p], s2.take(0)) + apply_bytes(b1, apply_bytes(a, s2)) =~= apply_bytes(
                    b,
                    apply_bytes(a, s2),
                ));
            },
            (Prim::Retain(x), Prim::Retain(y)) => {
                let aa = apply_bytes(a, s2);
                if x < y {
                    let k = x as int;
                    let p = Prim::Retain(x);
                    let b2 = b.update(0, Prim::Retain((y - x) as nat));
                    assert(b2.drop_first() =~= b1);
                    lemma_unfold(a);
                    lemma_unfold(b);
                    lemma_unfold(a1);
                    lemma_unfold(b2);
                    lemma_len_push_prim(acc, p);
                    lemma_compose_from(push_prim(acc, p), a1, b2, s1 + s2.take(k), s2.skip(k));
                    lemma_compose_step(acc, p, a1, b2, s1, s2, k);
                    lemma_apply_single(p, s2.take(k));
                    let a2a = apply_bytes(a1, s2.skip(k));
                    lemma_apply_len(a1, s2.skip(k));
                    assert(aa =~= s2.take(k) + a2a);
                    assert(aa.take(y as int) =~= s2.take(k) + a2a.take(y - x));
                    assert(aa.skip(y as int) =~= a2a.skip(y - x));
                } else if x == y {
                    let k = x as int;
                    let p = Prim::Retain(x);
                    lemma_unfold(a);
                    lemma_unfold(b);
                    lemma_unfold(a1);
                    lemma_unfold(b1);
                    lemma_len_push_prim(acc, p);
                    lemma_compose_from(push_prim(acc, p), a1, b1, s1 + s2.take(k), s2.skip(k));
                    lemma_compose_step(acc, p, a1, b1, s1, s2, k);
                    lemma_apply_single(p, s2.take(k));
                    let a2a = apply_bytes(a1, s2.skip(k));
                    assert(aa =~= s2.take(k) + a2a);
                    assert(aa.take(y as int) =~= s2.take(k));
                    assert(aa.skip(y as int) =~= a2a);
                } else {
                    let k = y as int;
                    let p = Prim::Retain(y);
                    let a2 = a.update(0, Prim::Retain((x - y) as nat));
                    assert(a2.drop_first() =~= a1);
                    lemma_unfold(a);
                    lemma_unfold(b);
                    lemma_unfold(a2);
                    lemma_unfold(b1);
                    lemma_len_push_prim(acc, p);
                    lemma_compose_from(push_prim(acc, p), a2, b1, s1 + s2.take(k), s2.skip(k));
                    lemma_compose_step(acc, p, a2, b1, s1, s2, k);
                    lemma_apply_single(p, s2.take(k));
                    let t2 = s2.skip(k);
                    assert(apply_bytes(a2, t2) == t2.take(x - y) + apply_bytes(a1, t2.skip(x - y)));
                    assert(t2.skip(x - y) =~= s2.skip(x as int));
                    assert(aa.take(y as int) =~= s2.take(k));
                    assert(aa.skip(y as int) =~= apply_bytes(a2, t2));
                }
            },
            (Prim::Retain(x), Prim::Delete(y)) => {
                let aa = apply_bytes(a, s2);
                if x < y {
                    let k = x as int;
                    let p = Prim::Delete(x);
                    let b2 = b.update(0, Prim::Delete((y - x) as nat));
                    assert(b2.drop_first() =~= b1);
                    lemma_unfold(a);
                    lemma_unfold(b);
                    lemma_unfold(a1);
                    lemma_unfold(b2);
                    lemma_len_push_prim(acc, p);
                    lemma_compose_from(push_prim(acc, p), a1, b2, s1 + s2.take(k), s2.skip(k));
                    lemma_compose_step(acc, p, a1, b2, s1, s2, k);
                    lemma_apply_single(p, s2.take(k));
                    let a2a = apply_bytes(a1, s2.skip(k));
                    lemma_apply_len(a1, s2.skip(k));
                    assert(aa =~= s2.take(k) + a2a);
                    assert(aa.skip(y as int) =~= a2a.skip(y - x));
                } else if x == y {
                    let k = x as int;
                    let p = Prim::Delete(x);
                    lemma_unfold(a);
                    lemma_unfold(b);
                    lemma_unfold(a1);
                    lemma_unfold(b1);
                    lemma_len_push_prim(acc, p);
                    lemma_compose_from(push_prim(acc, p), a1, b1, s1 + s2.take(k), s2.skip(k));
                    lemma_compose_step(acc, p, a1, b1, s1, s2, k);
                    lemma_apply_single(p, s2.take(k));
                    let a2a = apply_bytes(a1, s2.skip(k));
                    assert(aa =~= s2.take(k) + a2a);
                    assert(aa.skip(y as int) =~= a2a);
                } else {
                    let k = y as int;
                    let p = Prim::Delete(y);
                    let a2 = a.update(0, Prim::Retain((x - y) as nat));
                    assert(a2.drop_first() =~= a1);
                    lemma_unfold(a);
                    lemma_unfold(b);
                    lemma_unfold(a2);
                    lemma_unfold(b1);
                    lemma_len_push_prim(acc, p);
                    lemma_compose_from(push_prim(acc, p), a2, b1, s1 + s2.take(k), s2.skip(k));
                    lemma_compose_step(acc, p, a2, b1, s1, s2, k);
                    lemma_apply_single(p, s2.take(k));
                    let t2 = s2.skip(k);
                    assert(apply_bytes(a2, t2) == t2.take(x - y) + apply_bytes(a1, t2.skip(x - y)));
                    assert(t2.skip(x - y) =~= s2.skip(x as int));
                    assert(aa.skip(y as int) =~= apply_bytes(a2, t2));
                }
            },
            (Prim::Insert(t), Prim::Retain(y)) => {
                let a1a = apply_bytes(a1, s2);
                let aa = apply_bytes(a, s2);
                assert(aa == t + a1a);
                assert(s2.skip(0) =~= s2);
                if t.len() < y {
                    let p = Prim::Insert(t);
                    let b2 = b.update(0, Prim::Retain((y - t.len()) as nat));
                    assert(b2.drop_first() =~= b1);
                    lemma_unfold(a);
                    lemma_unfold(b);
                    lemma_unfold(a1);
                    lemma_unfold(b2);
                    lemma_len_push_prim(acc, p);
                    lemma_compose_from(push_prim(acc, p), a1, b2, s1 + s2.take(0), s2.skip(0));
                    lemma_compose_step(acc, p, a1, b2, s1, s2, 0);
                    lemma_apply_single(p, s2.take(0));
                    lemma_apply_len(a1, s2);
                    assert(aa.take(y as int) =~= t + a1a.take(y - t.len()));
                    assert(aa.skip(y as int) =~= a1a.skip(y - t.len()));
                } else if t.len() == y {
                    let p = Prim::Insert(t);
                    lemma_unfold(a);
                    lemma_unfold(b);
                    lemma_unfold(a1);
                    lemma_unfold(b1);
                    lemma_len_push_prim(acc, p);
                    lemma_compose_from(push_prim(acc, p), a1, b1, s1 + s2.take(0), s2.skip(0));
                    lemma_compose_step(acc, p, a1, b1, s1, s2, 0);
                    lemma_apply_single(p, s2.take(0));
                    assert(aa.take(y as int) =~= t);
                    assert(aa.skip(y as int) =~= a1a);
                } else {
                    let p = Prim::Insert(t.take(y as int));
                    let a2 = a.update(0, Prim::Insert(t.skip(y as int)));
                    assert(a2.drop_first() =~= a1);
                    lemma_unfold(a);
                    lemma_unfold(b);
                    lemma_unfold(a2);
                    lemma_unfold(b1);
                    lemma_len_push_prim(acc, p);
                    lemma_compose_from(push_prim(acc, p), a2, b1, s1 + s2.take(0), s2.skip(0));
                    lemma_compose_step(acc, p, a2, b1, s1, s2, 0);
                    lemma_apply_single(p, s2.take(0));
                    assert(apply_bytes(a2, s2) == t.skip(y as int) + a1a);
                    assert(aa.take(y as int) =~= t.take(y as int));
                    assert(aa.skip(y as int) =~= t.skip(y as int) + a1a);
                }
            },
            (Prim::Insert(t), Prim::Delete(y)) => {
                let a1a = apply_bytes(a1, s2);
                let aa = apply_bytes(a, s2);
                assert(aa == t + a1a);
                if t.len() < y {
                    let b2 = b.update(0, Prim::Delete((y - t.len()) as nat));
                    assert(b2.drop_first() =~= b1);
                    lemma_unfold(a);
                    lemma_unfold(b);
                    lemma_unfold(a1);
                    lemma_unfold(b2);
                    lemma_compose_from(acc, a1, b2, s1, s2);
                    lemma_apply_len(a1, s2);
                    assert(aa.skip(y as int) =~= a1a.skip(y - t.len()));
                } else if t.len() == y {
                    lemma_unfold(a);
                    lemma_unfold(b);
                    lemma_unfold(a1);
                    lemma_unfold(b1);
                    lemma_compose_from(acc, a1, b1, s1, s2);
                    assert(aa.skip(y as int) =~= a1a);
                } else {
                    let a2 = a.update(0, Prim::Insert(t.skip(y as int)));
                    assert(a2.drop_first() =~= a1);
                    lemma_unfold(a);
                    lemma_unfold(b);
                    lemma_unfold(a2);
                    lemma_unfold(b1);
                    lemma_compose_from(acc, a2, b1, s1, s2);
                    assert(apply_bytes(a2, s2) == t.skip(y as int) + a1a);
                    assert(aa.skip(y as int) =~= t.skip(y as int) + a1a);
                }
            },
        }
    }
}

/// Applying the composition of `a` and `b` is applying `a`, then `b`.
pub proof fn lemma_compose_apply(a: Seq<Prim>, b: Seq<Prim>, s: Seq<u8>)
    requires
        s.len() == src_len(a),
        tgt_len(a) == src_len(b),
    ensures
        apply_bytes(compose_ops(a, b), s) == apply_bytes(b, apply_bytes(a, s)),
        src_len(compose_ops(a, b)) == src_len(a),
        tgt_len(compose_ops(a, b)) == tgt_len(b),
{
    assert(src_len(Seq::<Prim>::empty()) == 0);
    lemma_compose_from(Seq::empty(), a, b, Seq::empty(), s);
    assert(Seq::<u8>::empty() + s =~= s);
    assert(apply_bytes(Seq::<Prim>::empty(), Seq::<u8>::empty()) =~= Seq::<u8>::empty());
    assert(Seq::<u8>::empty() + apply_bytes(b, apply_bytes(a, s)) =~= apply_bytes(b, apply_bytes(a, s)));
}


/// Appending `p` to `l` and `q` to `m`, where both read what they have read
/// so far and `p` reads `u`, `q` reads `v`, and what `p` and `q` write agree.
proof fn lemma_push_both(l: Seq<Prim>, m: Seq<Prim>, p: Prim, q: Prim, x: Seq<u8>, y: Seq<u8>, u: Seq<u8>, v: Seq<u8>)
    requires
        src_len(l) == x.len(),
        src_len(m) == y.len(),
        prim_src(p) == u.len(),
        prim_src(q) == v.len(),
        apply_bytes(l, x) == apply_bytes(m, y),
        apply_bytes(seq![p], u) == apply_bytes(seq![q], v),
    ensures
        apply_bytes(push_prim(l, p), x + u) == apply_bytes(push_prim(m, q), y + v),
        src_len(push_prim(l, p)) == (x + u).len(),
        src_len(push_prim(m, q)) == (y + v).len(),
{
    lemma_len_push_prim(l, p);
    lemma_len_push_prim(m, q);
    lemma_apply_push(l, p, x + u);
    lemma_apply_push(m, q, y + v);
    assert((x + u).take(x.len() as int) =~= x);
    assert((x + u).skip(x.len() as int) =~= u);
    assert((y + v).take(y.len() as int) =~= y);
    assert((y + v).skip(y.len() as int) =~= v);
}

/// Transformation converges: with `xa` read by `lb` and `xb` read by `la`
/// giving the same bytes, the two finished sides give the same bytes after
/// `a` and after `b` on a common `s`.
#[verifier::rlimit(100)]
#[verifier::spinoff_prover]
proof fn lemma_transform_from(
    la: Seq<Prim>,
    lb: Seq<Prim>,
    a: Seq<Prim>,
    b: Seq<Prim>,
    xa: Seq<u8>,
    xb: Seq<u8>,
    s: Seq<u8>,
)
    requires
        src_len(a) == s.len(),
        src_len(b) == s.len(),
        src_len(lb) == xa.len(),
        src_len(la) == xb.len(),
        apply_bytes(lb, xa) == apply_bytes(la, xb),
        all_nonempty(a),
        all_nonempty(b),
    ensures
        apply_bytes(transform_from(la, lb, a, b).1, xa + apply_bytes(a, s)) == apply_bytes(
            transform_from(la, lb, a, b).0,
            xb + apply_bytes(b, s),
        ),
        src_len(transform_from(la, lb, a, b).1) == src_len(lb) + tgt_len(a),
        src_len(transform_from(la, lb, a, b).0) == src_len(la) + tgt_len(b),
    decreases a.len() + b.len(),
{
    lemma_unfold(a);
    lemma_unfold(b);
    let a1 = a.drop_first();
    let b1 = b.drop_first();
    let e = Seq::<u8>::empty();
    if a.len() > 0 && a[0] is Insert {
        let t = a[0]->Insert_0;
        lemma_apply_single(Prim::Insert(t), e);
        lemma_apply_single(Prim::Retain(t.len()), t);
        lemma_push_both(lb, la, Prim::Retain(t.len()), Prim::Insert(t), xa, xb, t, e);
        assert(xb + e =~= xb);
        lemma_len_push_prim(lb, Prim::Retain(t.len()));
        lemma_len_push_prim(la, Prim::Insert(t));
        lemma_transform_from(push_prim(la, Prim::Insert(t)), push_prim(lb, Prim::Retain(t.len())), a1, b, xa + t, xb, s);
        assert(xa + apply_bytes(a, s) =~= (xa + t) + apply_bytes(a1, s));
    } else if b.len() > 0 && b[0] is Insert {
        let t = b[0]->Insert_0;
        lemma_apply_single(Prim::Insert(t), e);
        lemma_apply_single(Prim::Retain(t.len()), t);
        lemma_push_both(lb, la, Prim::Insert(t), Prim::Retain(t.len()), xa, xb, e, t);
        assert(xa + e =~= xa);
        lemma_len_push_prim(lb, Prim::Insert(t));
        lemma_len_push_prim(la, Prim::Retain(t.len()));
        lemma_transform_from(push_prim(la, Prim::Retain(t.len())), push_prim(lb, Prim::Insert(t)), a, b1, xa, xb + t, s);
        assert(xb + apply_bytes(b, s) =~= (xb + t) + apply_bytes(b1, s));
    } else if a.len() == 0 || b.len() == 0 {
        if a.len() > 0 {
            lemma_src_zero_empty(a);
        }
        if b.len() > 0 {
            lemma_src_zero_empty(b);
        }
        assert(xa + apply_bytes(a, s) =~= xa);
        assert(xb + apply_bytes(b, s) =~= xb);
    } else {
        match (a[0], b[0]) {
            (Prim::Retain(x), Prim::Retain(y)) => {
                let m = if x < y { x } else { y };
                let h = s.take(m as int);
                let s2 = s.skip(m as int);
                lemma_apply_single(Prim::Retain(m), h);
                lemma_push_both(lb, la, Prim::Retain(m), Prim::Retain(m), xa, xb, h, h);
                let la2 = push_prim(la, Prim::Retain(m));
                let lb2 = push_prim(lb, Prim::Retain(m));
                lemma_len_push_prim(lb, Prim::Retain(m));
                lemma_len_push_prim(la, Prim::Retain(m));
                let a2 = if x <= y { a1 } else { a.update(0, Prim::Retain((x - y) as nat)) };
                let b2 = if y <= x { b1 } else { b.update(0, Prim::Retain((y - x) as nat)) };
                lemma_unfold(a2);
                lemma_unfold(b2);
                if x > y {
                    assert(a2.drop_first() =~= a1);
                }
                if y > x {
                    assert(b2.drop_first() =~= b1);
                }
                assert(all_nonempty(a2));
                assert(all_nonempty(b2));
                lemma_transform_from(la2, lb2, a2, b2, xa + h, xb + h, s2);
                assert(apply_bytes(a, s) =~= h + apply_bytes(a2, s2)) by {
                    if x > y {
                        assert(s.take(x as int) =~= h + s2.take(x - y));
                        assert(s.skip(x as int) =~= s2.skip(x - y));
                    } else {
                        assert(s.skip(x as int) =~= s2);
                    }
                }
                assert(apply_bytes(b, s) =~= h + apply_bytes(b2, s2)) by {
                    if y > x {
                        assert(s.take(y as int) =~= h + s2.take(y - x));
                        assert(s.skip(y as int) =~= s2.skip(y - x));
                    } else {
                        assert(s.skip(y as int) =~= s2);
                    }
                }
                assert(xa + apply_bytes(a, s) =~= (xa + h) + apply_bytes(a2, s2));
                assert(xb + apply_bytes(b, s) =~= (xb + h) + apply_bytes(b2, s2));
            },
            (Prim::Delete(x), Prim::Delete(y)) => {
                let m = if x < y { x } else { y };
                let s2 = s.skip(m as int);
                let a2 = if x <= y { a1 } else { a.update(0, Prim::Delete((x - y) as nat)) };
                let b2 = if y <= x { b1 } else { b.update(0, Prim::Delete((y - x) as nat)) };
                lemma_unfold(a2);
                lemma_unfold(b2);
                if x > y {
                    assert(a2.drop_first() =~= a1);
                }
                if y > x {
                    assert(b2.drop_first() =~= b1);
                }
                assert(all_nonempty(a2));
                assert(all_nonempty(b2));
                lemma_transform_from(la, lb, a2, b2, xa, xb, s2);
                assert(apply_bytes(a, s) =~= apply_bytes(a2, s2)) by {
                    if x > y {
                        assert(s.skip(x as int) =~= s2.skip(x - y));
                    } else {
                        assert(s.skip(x as int) =~= s2);
                    }
                }
                assert(apply_bytes(b, s) =~= apply_bytes(b2, s2)) by {
                    if y > x {
                        assert(s.skip(y as int) =~= s2.skip(y - x));
                    } else {
                        assert(s.skip(y as int) =~= s2);
                    }
                }
            },
            (Prim::Retain(x), Prim::Delete(y)) => {
                let m = if x < y { x } else { y };
                let h = s.take(m as int);
                let s2 = s.skip(m as int);
                lemma_apply_single(Prim::Delete(m), h);
                lemma_len_push_prim(lb, Prim::Delete(m));
                lemma_apply_push(lb, Prim::Delete(m), xa + h);
                assert((xa + h).take(xa.len() as int) =~= xa);
                assert((xa + h).skip(xa.len() as int) =~= h);
                assert(apply_bytes(lb, xa) + Seq::<u8>::empty() =~= apply_bytes(lb, xa));
                let lb2 = push_prim(lb, Prim::Delete(m));
                let a2 = if x <= y { a1 } else { a.update(0, Prim::Retain((x - y) as nat)) };
                let b2 = if y <= x { b1 } else { b.update(0, Prim::Delete((y - x) as nat)) };
                lemma_unfold(a2);
                lemma_unfold(b2);
                if x > y {
                    assert(a2.drop_first() =~= a1);
                }
                if y > x {
                    assert(b2.drop_first() =~= b1);
                }
                assert(all_nonempty(a2));
                assert(all_nonempty(b2));
                lemma_transform_from(la, lb2, a2, b2, xa + h, xb, s2);
                assert(apply_bytes(a, s) =~= h + apply_bytes(a2, s2)) by {
                    if x > y {
                        assert(s.take(x as int) =~= h + s2.take(x - y));
                        assert(s.skip(x as int) =~= s2.skip(x - y));
                    } else {
                        assert(s.skip(x as int) =~= s2);
                    }
                }
                assert(apply_bytes(b, s) =~= apply_bytes(b2, s2)) by {
                    if y > x {
                        assert(s.skip(y as int) =~= s2.skip(y - x));
                    } else {
                        assert(s.skip(y as int) =~= s2);
                    }
                }
                assert(xa + apply_bytes(a, s) =~= (xa + h) + apply_bytes(a2, s2));
            },
            (Prim::Delete(x), Prim::Retain(y)) => {
                let m = if x < y { x } else { y };
                let h = s.take(m as int);
                let s2 = s.skip(m as int);
                lemma_apply_single(Prim::Delete(m), h);
                lemma_len_push_prim(la, Prim::Delete(m));
                lemma_apply_push(la, Prim::Delete(m), xb + h);
                assert((xb + h).take(xb.len() as int) =~= xb);
                assert((xb + h).skip(xb.len() as int) =~= h);
                assert(apply_bytes(la, xb) + Seq::<u8>::empty() =~= apply_bytes(la, xb));
                let la2 = push_prim(la, Prim::Delete(m));
                let a2 = if x <= y { a1 } else { a.update(0, Prim::Delete((x - y) as nat)) };
                let b2 = if y <= x { b1 } else { b.update(0, Prim::Retain((y - x) as nat)) };
                lemma_unfold(a2);
                lemma_unfold(b2);
                if x > y {
                    assert(a2.drop_first() =~= a1);
                }
                if y > x {
                    assert(b2.drop_first() =~= b1);
                }
                assert(all_nonempty(a2));
                assert(all_nonempty(b2));
                lemma_transform_from(la2, lb, a2, b2, xa, xb + h, s2);
                assert(apply_bytes(a, s) =~= apply_bytes(a2, s2)) by {
                    if x > y {
                        assert(s.skip(x as int) =~= s2.skip(x - y));
                    } else {
                        assert(s.skip(x as int) =~= s2);
                    }
                }
                assert(apply_bytes(b, s) =~= h + apply_bytes(b2, s2)) by {
                    if y > x {
                        assert(s.take(y as int) =~= h + s2.take(y - x));
                        assert(s.skip(y as int) =~= s2.skip(y - x));
                    } else {
                        assert(s.skip(y as int) =~= s2);
                    }
                }
                assert(xb + apply_bytes(b, s) =~= (xb + h) + apply_bytes(b2, s2));
            },
            _ => {},
        }
    }
}


/// Transformation converges: for operations `a` and `b` on a common source
/// `s`, with `(a2, b2)` their transformation, `a` then `b2` and `b` then `a2`
/// give the same bytes, and so do the compositions `a ∘ b2` and `b ∘ a2`.
pub proof fn lemma_transform_converges(a: Seq<Prim>, b: Seq<Prim>, s: Seq<u8>)
    requires
        canonical(a),
        canonical(b),
        src_len(a) == s.len(),
        src_len(b) == s.len(),
    ensures
        src_len(transform_ops(a, b).1) == tgt_len(a),
        src_len(transform_ops(a, b).0) == tgt_len(b),
        apply_bytes(transform_ops(a, b).1, apply_bytes(a, s)) == apply_bytes(transform_ops(a, b).0, apply_bytes(b, s)),
        apply_bytes(compose_ops(a, transform_ops(a, b).1), s) == apply_bytes(compose_ops(b, transform_ops(a, b).0), s),
{
    let e = Seq::<u8>::empty();
    let n = Seq::<Prim>::empty();
    assert(src_len(n) == 0);
    assert(apply_bytes(n, e) =~= e);
    lemma_transform_from(n, n, a, b, e, e, s);
    assert(e + apply_bytes(a, s) =~= apply_bytes(a, s));
    assert(e + apply_bytes(b, s) =~= apply_bytes(b, s));
    lemma_compose_apply(a, transform_ops(a, b).1, s);
    lemma_compose_apply(b, transform_ops(a, b).0, s);
}


/// Each step of `a` appended in turn to `acc` the way the builder does.
pub open spec fn push_all(acc: Seq<Prim>, a: Seq<Prim>) -> Seq<Prim>
    decreases a.len(),
{
    if a.len() == 0 {
        acc
    } else {
        push_all(push_prim(acc, a[0]), a.drop_first())
    }
}

proof fn lemma_push_all_canonical(acc: Seq<Prim>, a: Seq<Prim>)
    requires
        canonical(acc + a),
    ensures
        push_all(acc, a) == acc + a,
    decreases a.len(),
{
    if a.len() == 0 {
        assert(acc + a =~= acc);
    } else {
        let c = acc + a;
        assert(c[acc.len() as int] == a[0]);
        if acc.len() > 0 {
            assert(c[acc.len() - 1] == acc.last());
        }
        assert(push_prim(acc, a[0]) == acc.push(a[0]));
        assert(acc.push(a[0]) + a.drop_first() =~= c);
        lemma_push_all_canonical(acc.push(a[0]), a.drop_first());
    }
}

proof fn lemma_nop_ops(n: nat)
    ensures
        n == 0 ==> nop_ops(n) =~= Seq::<Prim>::empty(),
        n > 0 ==> nop_ops(n) =~= seq![Prim::Retain(n)],
{
}

proof fn lemma_compose_nop_right(acc: Seq<Prim>, a: Seq<Prim>)
    ensures
        compose_from(acc, a, nop_ops(tgt_len(a))) == push_all(acc, a),
    decreases a.len(),
{
    lemma_unfold(a);
    let n = tgt_len(a);
    lemma_nop_ops(n);
    if a.len() == 0 {
    } else {
        let a1 = a.drop_first();
        lemma_nop_ops(tgt_len(a1));
        lemma_compose_nop_right(push_prim(acc, a[0]), a1);
        if n > 0 {
            let b = nop_ops(n);
            assert(b.drop_first() =~= Seq::<Prim>::empty());
            match a[0] {
                Prim::Retain(x) => {
                    if x < n {
                        assert(b.update(0, Prim::Retain((n - x) as nat)) =~= nop_ops(tgt_len(a1)));
                    }
                },
                Prim::Insert(t) => {
                    if t.len() < n {
                        assert(b.update(0, Prim::Retain((n - t.len()) as nat)) =~= nop_ops(tgt_len(a1)));
                    }
                },
                Prim::Delete(_) => {},
            }
        }
    }
}

proof fn lemma_compose_nop_left(acc: Seq<Prim>, b: Seq<Prim>)
    ensures
        compose_from(acc, nop_ops(src_len(b)), b) == push_all(acc, b),
    decreases b.len(),
{
    lemma_unfold(b);
    let n = src_len(b);
    lemma_nop_ops(n);
    if b.len() == 0 {
    } else {
        let b1 = b.drop_first();
        lemma_nop_ops(src_len(b1));
        lemma_compose_nop_left(push_prim(acc, b[0]), b1);
        if n > 0 {
            let a = nop_ops(n);
            assert(a.drop_first() =~= Seq::<Prim>::empty());
            match b[0] {
                Prim::Retain(y) => {
                    if y < n {
                        assert(a.update(0, Prim::Retain((n - y) as nat)) =~= nop_ops(src_len(b1)));
                    }
                },
                Prim::Delete(y) => {
                    if y < n {
                        assert(a.update(0, Prim::Retain((n - y) as nat)) =~= nop_ops(src_len(b1)));
                    }
                },
                Prim::Insert(_) => {},
            }
        }
    }
}

/// The identity operation is neutral for composition on either side.
pub proof fn lemma_compose_nop(a: Seq<Prim>)
    requires
        canonical(a),
    ensures
        compose_ops(a, nop_ops(tgt_len(a))) == a,
        compose_ops(nop_ops(src_len(a)), a) == a,
{
    let e = Seq::<Prim>::empty();
    assert(e + a =~= a);
    lemma_push_all_canonical(e, a);
    lemma_compose_nop_right(e, a);
    lemma_compose_nop_left(e, a);
}


/// On strings: where the intermediate result of `a` is valid UTF-8, applying
/// the composition of `a` and `b` to `s` gives the string that applying `a`
/// and then `b` gives.
pub proof fn lemma_compose_apply_text(a: Seq<Prim>, b: Seq<Prim>, s: Seq<char>)
    requires
        bytes_of(s).len() == src_len(a),
        tgt_len(a) == src_len(b),
        valid_utf8(apply_bytes(a, bytes_of(s))),
    ensures
        text_of(apply_bytes(compose_ops(a, b), bytes_of(s))) == text_of(
            apply_bytes(b, bytes_of(text_of(apply_bytes(a, bytes_of(s))))),
        ),
{
    lemma_compose_apply(a, b, bytes_of(s));
    decode_utf8_encode_utf8(apply_bytes(a, bytes_of(s)));
}

/// On strings: where the results of `a` and of `b` on `s` are valid UTF-8,
/// `a` then `b2` and `b` then `a2` give the same string, `(a2, b2)` being the
/// transformation of `a` and `b`.
pub proof fn lemma_transform_converges_text(a: Seq<Prim>, b: Seq<Prim>, s: Seq<char>)
    requires
        canonical(a),
        canonical(b),
        bytes_of(s).len() == src_len(a),
        bytes_of(s).len() == src_len(b),
        valid_utf8(apply_bytes(a, bytes_of(s))),
        valid_utf8(apply_bytes(b, bytes_of(s))),
    ensures
        text_of(apply_bytes(transform_ops(a, b).1, bytes_of(text_of(apply_bytes(a, bytes_of(s)))))) == text_of(
            apply_bytes(transform_ops(a, b).0, bytes_of(text_of(apply_bytes(b, bytes_of(s))))),
        ),
{
    lemma_transform_converges(a, b, bytes_of(s));
    decode_utf8_encode_utf8(apply_bytes(a, bytes_of(s)));
    decode_utf8_encode_utf8(apply_bytes(b, bytes_of(s)));
}

} // verus!
