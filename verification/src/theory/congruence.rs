//! Congruence closure: the smallest equivalence over the terms that contains the
//! asserted equalities and equates two applications of one function whose arguments are
//! pairwise equivalent.
use vstd::prelude::*;
use crate::theory::euf::{EufTerm, TermId};

verus! {

/// `r` relates `x` and `y`.
pub open spec fn related(r: spec_fn(u32, u32) -> bool, x: u32, y: u32) -> bool {
    r(x, y)
}

/// `a` and `b` apply one function to arguments that `r` relates pairwise.
pub open spec fn args_related(a: EufTerm, b: EufTerm, r: spec_fn(u32, u32) -> bool) -> bool {
    match (a, b) {
        (EufTerm::App(f, xs), EufTerm::App(g, ys)) => {
            &&& f@ == g@
            &&& xs@.len() == ys@.len()
            &&& forall|k: int| 0 <= k < xs@.len() ==> #[trigger] related(r, xs@[k], ys@[k])
        },
        _ => false,
    }
}

/// `r` is an equivalence that contains the equalities `eqs` and is closed under
/// congruence over `terms` (term `i` has identifier `i`).
pub open spec fn is_congruence(terms: Seq<EufTerm>, eqs: Seq<(u32, u32)>, r: spec_fn(u32, u32) -> bool) -> bool {
    &&& forall|x: u32| #[trigger] related(r, x, x)
    &&& forall|x: u32, y: u32| #[trigger] related(r, x, y) ==> related(r, y, x)
    &&& forall|x: u32, y: u32, z: u32| #[trigger] related(r, x, y) && #[trigger] related(r, y, z) ==> related(r, x, z)
    &&& forall|k: int| 0 <= k < eqs.len() ==> #[trigger] related(r, eqs[k].0, eqs[k].1)
    &&& forall|i: int, j: int| 0 <= i < terms.len() && 0 <= j < terms.len() && args_related(#[trigger] terms[i], #[trigger] terms[j], r)
        ==> related(r, i as u32, j as u32)
}

/// `x` and `y` are equal in the congruence closure of `eqs` over `terms`: every
/// congruence that contains `eqs` relates them.
pub open spec fn congruent(terms: Seq<EufTerm>, eqs: Seq<(u32, u32)>, x: u32, y: u32) -> bool {
    forall|r: spec_fn(u32, u32) -> bool| #[trigger] is_congruence(terms, eqs, r) ==> related(r, x, y)
}

/// The sum of the entries of `s`.
pub open spec fn total(s: Seq<u32>) -> nat
    decreases s.len(),
{
    if s.len() == 0 { 0 } else { total(s.drop_last()) + s.last() as nat }
}

/// An entrywise smaller sequence, strictly smaller somewhere, has a smaller total.
proof fn lemma_total_decreases(a: Seq<u32>, b: Seq<u32>, p: int)
    requires
        a.len() == b.len(),
        0 <= p < a.len(),
        forall|i: int| 0 <= i < a.len() ==> #[trigger] a[i] <= b[i],
        a[p] < b[p],
    ensures
        total(a) < total(b),
    decreases a.len(),
{
    if p < a.len() - 1 {
        lemma_total_decreases(a.drop_last(), b.drop_last(), p);
    } else {
        lemma_total_le(a.drop_last(), b.drop_last());
    }
}

proof fn lemma_total_le(a: Seq<u32>, b: Seq<u32>)
    requires
        a.len() == b.len(),
        forall|i: int| 0 <= i < a.len() ==> #[trigger] a[i] <= b[i],
    ensures
        total(a) <= total(b),
    decreases a.len(),
{
    if a.len() > 0 {
        lemma_total_le(a.drop_last(), b.drop_last());
    }
}

/// The classes are labelled by representatives: each label is the label of itself.
pub open spec fn labels_ok(rep: Seq<u32>) -> bool {
    forall|i: int| 0 <= i < rep.len() ==> (#[trigger] rep[i]) < rep.len() && rep[rep[i] as int] == rep[i]
}

/// Equal identifiers, or identifiers of terms with one label.
pub open spec fn label_rel(rep: Seq<u32>) -> spec_fn(u32, u32) -> bool {
    |a: u32, b: u32| a == b || (a < rep.len() && b < rep.len() && rep[a as int] == rep[b as int])
}

/// Every two terms with one label are congruent.
pub open spec fn labels_sound(terms: Seq<EufTerm>, eqs: Seq<(u32, u32)>, rep: Seq<u32>) -> bool {
    forall|x: int, y: int| 0 <= x < rep.len() && 0 <= y < rep.len() && #[trigger] rep[x] == #[trigger] rep[y]
        ==> congruent(terms, eqs, x as u32, y as u32)
}

/// Congruence is an equivalence.
proof fn lemma_congruent_equiv(terms: Seq<EufTerm>, eqs: Seq<(u32, u32)>)
    ensures
        forall|x: u32, y: u32| #[trigger] congruent(terms, eqs, x, y) ==> congruent(terms, eqs, y, x),
        forall|x: u32, y: u32, z: u32| #[trigger] congruent(terms, eqs, x, y) && #[trigger] congruent(terms, eqs, y, z)
            ==> congruent(terms, eqs, x, z),
        forall|x: u32| #[trigger] congruent(terms, eqs, x, x),
{
    assert forall|x: u32, y: u32| #[trigger] congruent(terms, eqs, x, y) implies congruent(terms, eqs, y, x) by {
        assert forall|r: spec_fn(u32, u32) -> bool| #[trigger] is_congruence(terms, eqs, r) implies related(r, y, x) by {
            assert(related(r, x, y));
        }
    }
    assert forall|x: u32, y: u32, z: u32| #[trigger] congruent(terms, eqs, x, y) && #[trigger] congruent(terms, eqs, y, z)
        implies congruent(terms, eqs, x, z) by {
        assert forall|r: spec_fn(u32, u32) -> bool| #[trigger] is_congruence(terms, eqs, r) implies related(r, x, z) by {
            assert(related(r, x, y));
            assert(related(r, y, z));
        }
    }
    assert forall|x: u32| #[trigger] congruent(terms, eqs, x, x) by {
        assert forall|r: spec_fn(u32, u32) -> bool| #[trigger] is_congruence(terms, eqs, r) implies related(r, x, x) by {}
    }
}

/// Relabel the class `from` as `to` (both labels of classes).
fn relabel(rep: &mut Vec<u32>, from: u32, to: u32)
    requires
        labels_ok(old(rep)@),
        from < old(rep)@.len(),
        to < old(rep)@.len(),
        old(rep)@[from as int] == from,
        old(rep)@[to as int] == to,
    ensures
        final(rep)@.len() == old(rep)@.len(),
        labels_ok(final(rep)@),
        forall|i: int| 0 <= i < old(rep)@.len() ==> #[trigger] final(rep)@[i] == if old(rep)@[i] == from { to } else { old(rep)@[i] },
{
    let n = rep.len();
    let ghost r0 = rep@;
    let mut i: usize = 0;
    while i < n
        invariant
            n == r0.len(),
            rep@.len() == n,
            i <= n,
            labels_ok(r0),
            r0[from as int] == from,
            r0[to as int] == to,
            from < n,
            to < n,
            forall|k: int| 0 <= k < i ==> #[trigger] rep@[k] == if r0[k] == from { to } else { r0[k] },
            forall|k: int| i <= k < n ==> #[trigger] rep@[k] == r0[k],
        decreases n - i,
    {
        if rep[i] == from {
            rep.set(i, to);
        }
        i = i + 1;
    }
    proof {
        assert forall|k: int| 0 <= k < rep@.len() implies (#[trigger] rep@[k]) < rep@.len() && rep@[rep@[k] as int] == rep@[k] by {
            assert(r0[k] < n);
            if r0[k] == from {
                assert(rep@[to as int] == to);
            } else {
                assert(r0[r0[k] as int] == r0[k]);
                assert(r0[k] != from);
            }
        }
    }
}

/// Whether terms `a` and `b` apply one function to arguments with equal labels.
fn args_match(a: &EufTerm, b: &EufTerm, rep: &Vec<u32>) -> (r: bool)
    requires
        labels_ok(rep@),
    ensures
        r == args_related(*a, *b, label_rel(rep@)),
{
    match (a, b) {
        (EufTerm::App(f, xs), EufTerm::App(g, ys)) => {
            if !crate::parser::smtlib::same_text(f.as_str(), g.as_str()) || xs.len() != ys.len() {
                return false;
            }
            let ghost rel = label_rel(rep@);
            let mut all = true;
            let mut k: usize = 0;
            while k < xs.len()
                invariant
                    xs@.len() == ys@.len(),
                    k <= xs@.len(),
                    rel == label_rel(rep@),
                    all == forall|q: int| 0 <= q < k ==> #[trigger] related(rel, xs@[q], ys@[q]),
                decreases xs@.len() - k,
            {
                let x = xs[k];
                let y = ys[k];
                let ok = x == y || ((x as usize) < rep.len() && (y as usize) < rep.len() && rep[x as usize] == rep[y as usize]);
                assert(related(rel, x, y) == (x == y || (x < rep@.len() && y < rep@.len() && rep@[x as int] == rep@[y as int])));
                proof {
                    if !ok {
                        assert(!related(rel, xs@[k as int], ys@[k as int]));
                    }
                }
                if !ok {
                    all = false;
                }
                k = k + 1;
            }
            all
        },
        _ => false,
    }
}

/// The classes of the congruence closure of `eqs` over `terms`, as a label for each
/// term: two terms have one label exactly when they are congruent.
pub fn congruence_classes(terms: &Vec<EufTerm>, eqs: &Vec<(TermId, TermId)>) -> (rep: Vec<u32>)
    requires
        terms@.len() <= u32::MAX,
        forall|k: int| 0 <= k < eqs@.len() ==> (#[trigger] eqs@[k]).0 < terms@.len() && eqs@[k].1 < terms@.len(),
    ensures
        rep@.len() == terms@.len(),
        forall|x: int, y: int| 0 <= x < terms@.len() && 0 <= y < terms@.len()
            ==> (#[trigger] rep@[x] == #[trigger] rep@[y] <==> congruent(terms@, eqs@, x as u32, y as u32)),
{
    let ghost ts = terms@;
    let ghost es = eqs@;
    proof {
        lemma_congruent_equiv(ts, es);
    }
    let n = terms.len();
    let mut rep: Vec<u32> = Vec::new();
    let mut i: usize = 0;
    while i < n
        invariant
            n == ts.len(),
            n <= u32::MAX,
            i <= n,
            rep@.len() == i,
            forall|k: int| 0 <= k < i ==> #[trigger] rep@[k] == k,
        decreases n - i,
    {
        rep.push(i as u32);
        i = i + 1;
    }
    proof {
        assert forall|x: int, y: int| 0 <= x < rep@.len() && 0 <= y < rep@.len() && #[trigger] rep@[x] == #[trigger] rep@[y]
            implies congruent(ts, es, x as u32, y as u32) by {
            assert(x == y);
        }
    }
    // The asserted equalities.
    let m = eqs.len();
    let mut k: usize = 0;
    while k < m
        invariant
            n == ts.len(),
            m == es.len(),
            es == eqs@,
            ts == terms@,
            n <= u32::MAX,
            k <= m,
            rep@.len() == n,
            labels_ok(rep@),
            labels_sound(ts, es, rep@),
            forall|q: int| 0 <= q < es.len() ==> (#[trigger] es[q]).0 < n && es[q].1 < n,
            forall|q: int| 0 <= q < k ==> rep@[(#[trigger] es[q]).0 as int] == rep@[es[q].1 as int],
            forall|x: u32, y: u32| #[trigger] congruent(ts, es, x, y) ==> congruent(ts, es, y, x),
            forall|x: u32, y: u32, z: u32| #[trigger] congruent(ts, es, x, y) && #[trigger] congruent(ts, es, y, z)
                ==> congruent(ts, es, x, z),
        decreases m - k,
    {
        let (a, b) = eqs[k];
        let ra = rep[a as usize];
        let rb = rep[b as usize];
        if ra != rb {
            let ghost r0 = rep@;
            proof {
                assert(congruent(ts, es, a, b)) by {
                    assert forall|r: spec_fn(u32, u32) -> bool| #[trigger] is_congruence(ts, es, r) implies related(r, a, b) by {
                        assert(related(r, es[k as int].0, es[k as int].1));
                    }
                }
            }
            relabel(&mut rep, rb, ra);
            proof {
                merge_sound(ts, es, r0, rep@, a, b, rb, ra);
                assert forall|q: int| 0 <= q < k + 1 implies rep@[(#[trigger] es[q]).0 as int] == rep@[es[q].1 as int] by {
                    if q < k {
                        assert(r0[es[q].0 as int] == r0[es[q].1 as int]);
                    }
                }
            }
        }
        k = k + 1;
    }
    // Close under congruence until nothing changes.
    loop
        invariant
            n == ts.len(),
            n <= u32::MAX,
            m == es.len(),
            es == eqs@,
            ts == terms@,
            rep@.len() == n,
            forall|q: int| 0 <= q < es.len() ==> (#[trigger] es[q]).0 < n && es[q].1 < n,
            labels_ok(rep@),
            labels_sound(ts, es, rep@),
            forall|q: int| 0 <= q < es.len() ==> rep@[(#[trigger] es[q]).0 as int] == rep@[es[q].1 as int],
            forall|x: u32, y: u32| #[trigger] congruent(ts, es, x, y) ==> congruent(ts, es, y, x),
            forall|x: u32, y: u32, z: u32| #[trigger] congruent(ts, es, x, y) && #[trigger] congruent(ts, es, y, z)
                ==> congruent(ts, es, x, z),
        decreases total(rep@),
    {
        let ghost start = rep@;
        let mut changed = false;
        let mut i: usize = 0;
        while i < n
            invariant
                n == ts.len(),
                n <= u32::MAX,
                m == es.len(),
                es == eqs@,
                ts == terms@,
                rep@.len() == n,
                forall|q: int| 0 <= q < es.len() ==> (#[trigger] es[q]).0 < n && es[q].1 < n,
                i <= n,
                labels_ok(rep@),
                labels_sound(ts, es, rep@),
                forall|q: int| 0 <= q < es.len() ==> rep@[(#[trigger] es[q]).0 as int] == rep@[es[q].1 as int],
                forall|x: u32, y: u32| #[trigger] congruent(ts, es, x, y) ==> congruent(ts, es, y, x),
                forall|x: u32, y: u32, z: u32| #[trigger] congruent(ts, es, x, y) && #[trigger] congruent(ts, es, y, z)
                    ==> congruent(ts, es, x, z),
                forall|q: int| 0 <= q < n ==> #[trigger] rep@[q] <= start[q],
                changed ==> total(rep@) < total(start),
                !changed ==> rep@ == start,
                !changed ==> forall|x: int, y: int| 0 <= x < i && 0 <= y < n && args_related(#[trigger] ts[x], #[trigger] ts[y],
                    label_rel(rep@)) ==> rep@[x] == rep@[y],
            decreases n - i,
        {
            let mut j: usize = 0;
            while j < n
                invariant
                    n == ts.len(),
                    n <= u32::MAX,
                    m == es.len(),
                    es == eqs@,
                    ts == terms@,
                    rep@.len() == n,
                    forall|q: int| 0 <= q < es.len() ==> (#[trigger] es[q]).0 < n && es[q].1 < n,
                    i < n,
                    j <= n,
                    labels_ok(rep@),
                    labels_sound(ts, es, rep@),
                    forall|q: int| 0 <= q < es.len() ==> rep@[(#[trigger] es[q]).0 as int] == rep@[es[q].1 as int],
                    forall|x: u32, y: u32| #[trigger] congruent(ts, es, x, y) ==> congruent(ts, es, y, x),
                    forall|x: u32, y: u32, z: u32| #[trigger] congruent(ts, es, x, y) && #[trigger] congruent(ts, es, y, z)
                        ==> congruent(ts, es, x, z),
                    forall|q: int| 0 <= q < n ==> #[trigger] rep@[q] <= start[q],
                    changed ==> total(rep@) < total(start),
                    !changed ==> rep@ == start,
                    !changed ==> forall|x: int, y: int| 0 <= x < i && 0 <= y < n && args_related(#[trigger] ts[x], #[trigger] ts[y],
                        label_rel(rep@)) ==> rep@[x] == rep@[y],
                    !changed ==> forall|y: int| 0 <= y < j && args_related(ts[i as int], #[trigger] ts[y],
                        label_rel(rep@)) ==> rep@[i as int] == rep@[y],
                decreases n - j,
            {
                let ri = rep[i];
                let rj = rep[j];
                if ri != rj && args_match(&terms[i], &terms[j], &rep) {
                    let ghost r0 = rep@;
                    proof {
                        args_congruent(ts, es, r0, i as int, j as int);
                    }
                    let (from, to) = if ri < rj { (rj, ri) } else { (ri, rj) };
                    relabel(&mut rep, from, to);
                    proof {
                        merge_sound(ts, es, r0, rep@, i as u32, j as u32, from, to);
                        assert forall|q: int| 0 <= q < es.len() implies rep@[(#[trigger] es[q]).0 as int] == rep@[es[q].1 as int] by {
                            assert(r0[es[q].0 as int] == r0[es[q].1 as int]);
                        }
                        assert(rep@[from as int] == to);
                        assert forall|q: int| 0 <= q < n implies #[trigger] rep@[q] <= start[q] by {
                            assert(r0[q] <= start[q]);
                        }
                        assert forall|q: int| 0 <= q < n implies #[trigger] rep@[q] <= r0[q] by {}
                        lemma_total_decreases(rep@, r0, from as int);
                        if !changed {
                            assert(r0 == start);
                        } else {
                            lemma_total_le(rep@, r0);
                        }
                    }
                    changed = true;
                }
                j = j + 1;
            }
            i = i + 1;
        }
        if !changed {
            proof {
                let rel = label_rel(rep@);
                assert(is_congruence(ts, es, rel)) by {
                    assert forall|a: int, b: int| 0 <= a < ts.len() && 0 <= b < ts.len() && args_related(#[trigger] ts[a], #[trigger] ts[b], rel)
                        implies related(rel, a as u32, b as u32) by {
                        assert(rep@[a] == rep@[b]);
                    }
                    assert forall|q: int| 0 <= q < es.len() implies #[trigger] related(rel, es[q].0, es[q].1) by {
                        assert(rep@[es[q].0 as int] == rep@[es[q].1 as int]);
                    }
                }
                assert forall|x: int, y: int| 0 <= x < ts.len() && 0 <= y < ts.len()
                    implies (#[trigger] rep@[x] == #[trigger] rep@[y] <==> congruent(ts, es, x as u32, y as u32)) by {
                    if congruent(ts, es, x as u32, y as u32) {
                        assert(related(rel, x as u32, y as u32));
                    }
                }
            }
            return rep;
        }
    }
}

/// Merging the classes of two congruent terms keeps every label congruent.
proof fn merge_sound(ts: Seq<EufTerm>, es: Seq<(u32, u32)>, r0: Seq<u32>, r1: Seq<u32>, a: u32, b: u32, from: u32, to: u32)
    requires
        labels_ok(r0),
        labels_sound(ts, es, r0),
        a < r0.len(),
        b < r0.len(),
        congruent(ts, es, a, b),
        (from == r0[a as int] && to == r0[b as int]) || (from == r0[b as int] && to == r0[a as int]),
        r1.len() == r0.len(),
        forall|x: u32, y: u32| #[trigger] congruent(ts, es, x, y) ==> congruent(ts, es, y, x),
        forall|x: u32, y: u32, z: u32| #[trigger] congruent(ts, es, x, y) && #[trigger] congruent(ts, es, y, z)
            ==> congruent(ts, es, x, z),
        forall|i: int| 0 <= i < r0.len() ==> #[trigger] r1[i] == if r0[i] == from { to } else { r0[i] },
    ensures
        labels_sound(ts, es, r1),
{
    assert(congruent(ts, es, b, a));
    assert forall|x: int, y: int| 0 <= x < r1.len() && 0 <= y < r1.len() && #[trigger] r1[x] == #[trigger] r1[y]
        implies congruent(ts, es, x as u32, y as u32) by {
        if r0[x] != r0[y] {
            if r0[x] == r0[a as int] {
                assert(congruent(ts, es, x as u32, a));
            }
            if r0[x] == r0[b as int] {
                assert(congruent(ts, es, x as u32, b));
            }
            if r0[y] == r0[a as int] {
                assert(congruent(ts, es, y as u32, a));
                assert(congruent(ts, es, a, y as u32));
            }
            if r0[y] == r0[b as int] {
                assert(congruent(ts, es, y as u32, b));
                assert(congruent(ts, es, b, y as u32));
            }
        }
    }
}

/// Two applications whose arguments have equal labels are congruent.
proof fn args_congruent(ts: Seq<EufTerm>, es: Seq<(u32, u32)>, rep: Seq<u32>, i: int, j: int)
    requires
        labels_ok(rep),
        labels_sound(ts, es, rep),
        rep.len() == ts.len(),
        0 <= i < ts.len(),
        0 <= j < ts.len(),
        args_related(ts[i], ts[j], label_rel(rep)),
    ensures
        congruent(ts, es, i as u32, j as u32),
{
    let rel = label_rel(rep);
    assert forall|r: spec_fn(u32, u32) -> bool| #[trigger] is_congruence(ts, es, r) implies related(r, i as u32, j as u32) by {
        match (ts[i], ts[j]) {
            (EufTerm::App(f, xs), EufTerm::App(g, ys)) => {
                assert forall|k: int| 0 <= k < xs@.len() implies #[trigger] related(r, xs@[k], ys@[k]) by {
                    assert(related(rel, xs@[k], ys@[k]));
                    if xs@[k] != ys@[k] {
                        assert(congruent(ts, es, xs@[k], ys@[k]));
                    }
                }
                assert(args_related(ts[i], ts[j], r));
            },
            _ => {},
        }
    }
}

} // verus!
