use crate::frame::{
    kept, removed_subsumed_by, scanned, subsumes_none, swap_removed, lemma_swap_remove_multiset,
    FrameLemma,
};
use crate::lit::{lemma_lemma_of, lemma_of, lits_sorted, subsumes, Lit};
use vstd::prelude::*;

verus! {

broadcast use vstd::seq_lib::group_to_multiset_ensures;

/// The codes of `l` strictly increase: it is sorted and holds no literal
/// twice.
pub open spec fn strictly_sorted(l: Seq<Lit>) -> bool {
    forall|i: int, j: int| 0 <= i < j < l.len() ==> l[i].0 < l[j].0
}

/// No lemma of a frame above frame 0 is subsumed by another lemma of the
/// same frame or of a higher one.
pub open spec fn no_redundant<P>(fs: Seq<Seq<FrameLemma<P>>>) -> bool {
    forall|i: int, p: int, j: int, q: int|
        1 <= i <= j < fs.len() && 0 <= p < fs[i].len() && 0 <= q < fs[j].len() && !(i == j && p
            == q) ==> !subsumes(#[trigger] fs[j][q]@, #[trigger] fs[i][p]@)
}

/// What adding the lemma `lm` to frame `frame` of the frames `v`, with a
/// containment check or not, makes of them (`w`) and reports (`clause_from`,
/// `moved_from`), as far as which lemmas stay where.
pub open spec fn lemma_added<P>(
    v: Seq<Seq<FrameLemma<P>>>,
    w: Seq<Seq<FrameLemma<P>>>,
    frame: int,
    lm: Seq<Lit>,
    contained_check: bool,
    clause_from: Option<usize>,
    moved_from: Option<usize>,
) -> bool {
    &&& w.len() == v.len()
    &&& frame > 0 ==> (clause_from is None <==> contained_check && exists|i: int, j: int|
        frame <= i < v.len() && 0 <= j < v[i].len() && subsumes((#[trigger] v[i][j])@, lm))
    &&& clause_from is None ==> w == v
    &&& clause_from is Some ==> w[frame].len() > 0 && w[frame].last()@ == lm
    &&& frame > 0 && clause_from is Some ==> {
        let b = clause_from->0 as int;
        &&& 1 <= b <= frame + 1
        &&& forall|k: int| 0 <= k < v.len() && (frame < k || k < b - 1 || k == 0) ==> w[k] == v[k]
        &&& forall|k: int|
            b <= k <= frame ==> removed_subsumed_by(v[k], #[trigger] kept(w, frame, k), lm)
                && subsumes_none(kept(w, frame, k), lm)
        &&& b >= 2 ==> removed_subsumed_by(v[b - 1], kept(w, frame, b - 1), lm)
        &&& b >= 2 ==> {
            let s = scanned(v[b - 1], lm, 0).0;
            let p = scanned(v[b - 1], lm, 0).1;
            &&& p is Some
            &&& (moved_from is Some <==> s[p->0]@ == lm)
            &&& kept(w, frame, b - 1) == if s[p->0]@ == lm {
                swap_removed(s, p->0)
            } else {
                s
            }
        }
    }
}

/// Subsumption is transitive.
pub proof fn lemma_subsumes_trans(a: Seq<Lit>, b: Seq<Lit>, c: Seq<Lit>)
    requires
        subsumes(a, b),
        subsumes(b, c),
    ensures
        subsumes(a, c),
{
    assert forall|i: int| 0 <= i < a.len() implies c.contains(#[trigger] a[i]) by {
        assert(b.contains(a[i]));
        let k = choose|k: int| 0 <= k < b.len() && b[k] == a[i];
        assert(c.contains(b[k]));
    }
}

/// A strictly sorted sequence holds no literal twice.
proof fn lemma_strictly_sorted_no_dup(a: Seq<Lit>)
    requires
        strictly_sorted(a),
    ensures
        a.no_duplicates(),
        lits_sorted(a),
{
    assert forall|i: int, j: int| 0 <= i < a.len() && 0 <= j < a.len() && i != j implies a[i]
        != a[j] by {
        if i < j {
            assert(a[i].0 < a[j].0);
        } else {
            assert(a[j].0 < a[i].0);
        }
    }
}

/// Two strictly sorted sequences that subsume each other are equal.
pub proof fn lemma_mutual_subsumes_eq(a: Seq<Lit>, b: Seq<Lit>)
    requires
        strictly_sorted(a),
        strictly_sorted(b),
        subsumes(a, b),
        subsumes(b, a),
    ensures
        a == b,
{
    lemma_strictly_sorted_no_dup(a);
    lemma_strictly_sorted_no_dup(b);
    a.lemma_multiset_has_no_duplicates();
    b.lemma_multiset_has_no_duplicates();
    assert forall|x: Lit| a.to_multiset().count(x) == b.to_multiset().count(x) by {
        if a.contains(x) {
            let k = choose|k: int| 0 <= k < a.len() && a[k] == x;
            assert(b.contains(a[k]));
        } else if b.contains(x) {
            let k = choose|k: int| 0 <= k < b.len() && b[k] == x;
            assert(a.contains(b[k]));
        }
    }
    assert(a.to_multiset() =~= b.to_multiset());
    lemma_lemma_of(b, a);
    lemma_lemma_of(b, b);
}

/// The scan keeps only lemmas of the frame, and where it stops, the lemma
/// there subsumes `l`.
pub proof fn lemma_scanned<P>(f: Seq<FrameLemma<P>>, l: Seq<Lit>, j: int)
    requires
        0 <= j,
    ensures
        forall|e: FrameLemma<P>|
            #[trigger] scanned(f, l, j).0.to_multiset().count(e) <= f.to_multiset().count(e),
        scanned(f, l, j).1 matches Some(p) ==> 0 <= p < scanned(f, l, j).0.len() && subsumes(
            scanned(f, l, j).0[p]@,
            l,
        ),
    decreases f.len() - j,
{
    if 0 <= j < f.len() {
        if subsumes(f[j]@, l) {
        } else if subsumes(l, f[j]@) {
            let g = swap_removed(f, j);
            lemma_scanned(g, l, j);
            lemma_swap_remove_multiset(f, j);
            assert forall|e: FrameLemma<P>|
                #[trigger] scanned(f, l, j).0.to_multiset().count(e) <= f.to_multiset().count(
                    e,
                ) by {
                assert(scanned(f, l, j) == scanned(g, l, j));
                assert(g.to_multiset().count(e) <= f.to_multiset().count(e));
            }
        } else {
            lemma_scanned(f, l, j + 1);
        }
    }
}

/// An element at a position of a part of `f` is an element of `f`.
proof fn lemma_part_elem<P>(g: Seq<FrameLemma<P>>, f: Seq<FrameLemma<P>>, q: int) -> (r: int)
    requires
        forall|e: FrameLemma<P>| #[trigger] g.to_multiset().count(e) <= f.to_multiset().count(e),
        0 <= q < g.len(),
    ensures
        0 <= r < f.len(),
        f[r] == g[q],
{
    assert(g.to_multiset().count(g[q]) > 0);
    assert(f.to_multiset().count(g[q]) > 0);
    assert(f.contains(g[q]));
    choose|r: int| 0 <= r < f.len() && f[r] == g[q]
}

/// A part of a frame that holds no lemma twice holds none twice either.
proof fn lemma_part_no_dup<P>(g: Seq<FrameLemma<P>>, f: Seq<FrameLemma<P>>)
    requires
        forall|e: FrameLemma<P>| #[trigger] g.to_multiset().count(e) <= f.to_multiset().count(e),
        f.no_duplicates(),
    ensures
        g.no_duplicates(),
{
    f.lemma_multiset_has_no_duplicates();
    assert forall|x: FrameLemma<P>| g.to_multiset().contains(x) implies g.to_multiset().count(x)
        == 1 by {
        assert(g.to_multiset().count(x) <= f.to_multiset().count(x));
        assert(f.to_multiset().count(x) > 0);
    }
    g.lemma_multiset_has_no_duplicates_conv();
}

/// Without redundant lemmas, no frame above 0 holds a lemma twice.
proof fn lemma_frames_no_dup<P>(v: Seq<Seq<FrameLemma<P>>>, k: int)
    requires
        no_redundant(v),
        1 <= k < v.len(),
    ensures
        v[k].no_duplicates(),
{
    assert forall|p: int, q: int| 0 <= p < v[k].len() && 0 <= q < v[k].len() && p != q implies v[k][p]
        != v[k][q] by {
        assert(!subsumes(v[k][q]@, v[k][p]@));
        if v[k][p] == v[k][q] {
            assert forall|t: int| 0 <= t < v[k][p]@.len() implies v[k][p]@.contains(
                #[trigger] v[k][p]@[t],
            ) by {}
        }
    }
}

/// Adding a lemma with a containment check keeps frames free of redundant
/// lemmas: afterwards no lemma of a frame above frame 0 is subsumed by
/// another lemma of the same frame or of a higher one. The lemmas are taken
/// to hold no literal twice.
pub proof fn law_add_lemma_no_redundant<P>(
    v: Seq<Seq<FrameLemma<P>>>,
    w: Seq<Seq<FrameLemma<P>>>,
    frame: int,
    cube: Seq<Lit>,
    clause_from: Option<usize>,
    moved_from: Option<usize>,
)
    requires
        no_redundant(v),
        1 <= frame < v.len(),
        forall|i: int, j: int|
            1 <= i < v.len() && 0 <= j < v[i].len() ==> strictly_sorted(#[trigger] v[i][j]@),
        cube.no_duplicates(),
        lemma_added(v, w, frame, lemma_of(cube), true, clause_from, moved_from),
    ensures
        no_redundant(w),
{
    if clause_from is None {
        return;
    }
    let b = clause_from->0 as int;
    let last = w[frame].len() - 1;
    let lm = lemma_of(cube);
    assert(strictly_sorted(lm)) by {
        lemma_lemma_of(cube, lm);
        cube.lemma_multiset_has_no_duplicates();
        assert forall|x: Lit| lm.to_multiset().contains(x) implies lm.to_multiset().count(x)
            == 1 by {
            assert(cube.to_multiset().contains(x));
        }
        lm.lemma_multiset_has_no_duplicates_conv();
        assert forall|i: int, j: int| 0 <= i < j < lm.len() implies lm[i].0 < lm[j].0 by {
            assert(lm[i] != lm[j]);
        }
    }
    // Every lemma of `w` but the new one lies in the same frame of `v`,
    // and the lemmas kept in a frame above 0 are all different.
    assert forall|k: int| 1 <= k < v.len() implies (forall|e: FrameLemma<P>|
        #[trigger] kept(w, frame, k).to_multiset().count(e) <= v[k].to_multiset().count(e))
        && kept(w, frame, k).no_duplicates() by {
        lemma_frames_no_dup(v, k);
        if b <= k <= frame || (b >= 2 && k == b - 1) {
        } else {
            assert(kept(w, frame, k) == v[k]);
        }
        lemma_part_no_dup(kept(w, frame, k), v[k]);
    }
    assert forall|i: int, p: int, j: int, q: int|
        1 <= i <= j < w.len() && 0 <= p < w[i].len() && 0 <= q < w[j].len() && !(i == j && p
            == q) implies !subsumes(#[trigger] w[j][q]@, #[trigger] w[i][p]@) by {
        let x_new = j == frame && q == last;
        let y_new = i == frame && p == last;
        if x_new {
            // `w[i][p]` is a lemma kept in frame `i <= frame`.
            let g = kept(w, frame, i);
            assert(p < g.len() && g[p] == w[i][p]);
            if subsumes(lm, w[i][p]@) {
                if i >= b {
                    assert(b <= i <= frame);
                    assert(removed_subsumed_by(v[i], kept(w, frame, i), lm) && subsumes_none(
                        kept(w, frame, i),
                        lm,
                    ));
                    assert(!subsumes(lm, g[p]@));
                } else {
                    // The scan stopped in frame `b - 1` at a lemma above `lm`.
                    assert(b >= 2);
                    let s = scanned(v[b - 1], lm, 0).0;
                    let pp = scanned(v[b - 1], lm, 0).1->0;
                    lemma_scanned(v[b - 1], lm, 0);
                    let a = lemma_part_elem(s, v[b - 1], pp);
                    lemma_subsumes_trans(s[pp]@, lm, w[i][p]@);
                    let c = lemma_part_elem(g, v[i], p);
                    if i < b - 1 {
                        assert(!subsumes(v[b - 1][a]@, v[i][c]@));
                    } else if a != c {
                        assert(!subsumes(v[b - 1][a]@, v[i][c]@));
                    } else {
                        lemma_mutual_subsumes_eq(s[pp]@, lm);
                        assert(g == swap_removed(s, pp));
                        lemma_swap_remove_multiset(s, pp);
                        let y = s[pp];
                        assert(g.to_multiset().count(y) > 0);
                        assert(s.to_multiset().count(y) >= 2);
                        lemma_frames_no_dup(v, b - 1);
                        v[b - 1].lemma_multiset_has_no_duplicates();
                        assert(v[b - 1].to_multiset().count(y) >= 2);
                    }
                }
            }
        } else if y_new {
            // `w[j][q]` is a lemma of frame `j >= frame` of `v`.
            let g = kept(w, frame, j);
            assert(q < g.len() && g[q] == w[j][q]);
            let c = lemma_part_elem(g, v[j], q);
            assert(!subsumes(v[j][c]@, lm));
        } else {
            let gi = kept(w, frame, i);
            let gj = kept(w, frame, j);
            assert(p < gi.len() && gi[p] == w[i][p]);
            assert(q < gj.len() && gj[q] == w[j][q]);
            let pi = lemma_part_elem(gi, v[i], p);
            let qj = lemma_part_elem(gj, v[j], q);
            if i == j && pi == qj {
                assert(gi[p] == gi[q]);
            } else {
                assert(!subsumes(v[j][qj]@, v[i][pi]@));
            }
        }
    }
}

} // verus!
