use crate::lit::{
    lemma_lemma_of, lemma_lex_antisymmetric, lemma_lex_total, lemma_lex_transitive, lemma_of,
    lex_le, lits_sorted, subsumes, Lemma, Lit, LitSet, LitVec, Var,
};
use crate::subsumption::lemma_added;
use crate::ghash::{
    code_set_contains, code_set_from, code_set_view, cube_set_insert, cube_set_into_vec,
    cube_set_new, cube_set_view,
};
use vstd::prelude::*;
use vstd::seq_lib::*;

verus! {

broadcast use vstd::seq_lib::group_to_multiset_ensures;

/// A lemma held in a frame, with the proof obligation that produced it.
pub struct FrameLemma<P> {
    lemma: Lemma,
    pub po: Option<P>,
    pub _ctp: Option<LitVec>,
}

impl<P> View for FrameLemma<P> {
    type V = Seq<Lit>;

    closed spec fn view(&self) -> Seq<Lit> {
        self.lemma@
    }
}

impl<P> FrameLemma<P> {
    /// The proof obligation that produced the lemma.
    pub closed spec fn po_val(&self) -> Option<P> {
        self.po
    }

    /// The counterexample kept with the lemma.
    pub closed spec fn ctp_val(&self) -> Option<LitVec> {
        self._ctp
    }

    /// The same lemma with the proof obligation `po`.
    pub closed spec fn with_po(self, po: Option<P>) -> FrameLemma<P> {
        FrameLemma { po, ..self }
    }

    /// A frame lemma of `lemma`, with its proof obligation and counterexample.
    pub fn new(lemma: Lemma, po: Option<P>, ctp: Option<LitVec>) -> (r: Self)
        ensures
            r@ == lemma@,
            r.po_val() == po,
            r.ctp_val() == ctp,
    {
        FrameLemma { lemma, po, _ctp: ctp }
    }

    /// The lemma.
    pub fn lemma(&self) -> (r: &Lemma)
        ensures
            r@ == self@,
    {
        &self.lemma
    }
}

/// The lemmas of one frame.
pub struct Frame<P> {
    lemmas: Vec<FrameLemma<P>>,
}

impl<P> View for Frame<P> {
    type V = Seq<FrameLemma<P>>;

    closed spec fn view(&self) -> Seq<FrameLemma<P>> {
        self.lemmas@
    }
}

impl<P> Frame<P> {
    /// An empty frame.
    pub fn new() -> (r: Self)
        ensures
            r@ == Seq::<FrameLemma<P>>::empty(),
    {
        Frame { lemmas: Vec::new() }
    }

    /// The lemmas of the frame.
    pub fn lemmas(&self) -> (r: &Vec<FrameLemma<P>>)
        ensures
            r@ == self@,
    {
        &self.lemmas
    }

    /// The number of lemmas.
    pub fn len(&self) -> (r: usize)
        ensures
            r == self@.len(),
    {
        self.lemmas.len()
    }

    /// Whether the frame holds no lemma.
    pub fn is_empty(&self) -> (r: bool)
        ensures
            r == (self@.len() == 0),
    {
        self.lemmas.len() == 0
    }

    /// Adds a lemma at the end.
    pub fn push(&mut self, l: FrameLemma<P>)
        ensures
            final(self)@ == old(self)@.push(l),
    {
        self.lemmas.push(l);
    }
}

/// Every literal of `s` has a code below `cap`.
pub open spec fn lits_below(s: Seq<Lit>, cap: nat) -> bool {
    forall|k: int| 0 <= k < s.len() ==> (#[trigger] s[k]).0 < cap
}

/// Every lemma of every frame has literals with codes below `cap`.
pub open spec fn all_lits_below<P>(fs: Seq<Seq<FrameLemma<P>>>, cap: nat) -> bool {
    forall|i: int, j: int|
        0 <= i < fs.len() && 0 <= j < fs[i].len() ==> lits_below((#[trigger] fs[i][j])@, cap)
}

/// Frames that only lost lemmas, or gained lemmas whose literals fit, keep
/// all their literals below `cap`.
pub proof fn lemma_all_lits_below<P>(
    old: Seq<Seq<FrameLemma<P>>>,
    new: Seq<Seq<FrameLemma<P>>>,
    cap: nat,
)
    requires
        all_lits_below(old, cap),
        old.len() == new.len(),
        forall|k: int, e: FrameLemma<P>|
            0 <= k < old.len() ==> #[trigger] new[k].to_multiset().count(e) <= old[k].to_multiset().count(e)
                || lits_below(e@, cap),
    ensures
        all_lits_below(new, cap),
{
    assert forall|i: int, j: int| 0 <= i < new.len() && 0 <= j < new[i].len() implies lits_below(
        (#[trigger] new[i][j])@,
        cap,
    ) by {
        let e = new[i][j];
        assert(new[i].to_multiset().count(e) > 0);
        if !lits_below(e@, cap) {
            assert(old[i].to_multiset().count(e) > 0);
            assert(old[i].contains(e));
            let q = choose|q: int| 0 <= q < old[i].len() && old[i][q] == e;
            assert(lits_below(old[i][q]@, cap));
        }
    }
}

/// `new` keeps a part of `old`: every lemma that left it is subsumed by `l`.
pub open spec fn removed_subsumed_by<P>(
    old: Seq<FrameLemma<P>>,
    new: Seq<FrameLemma<P>>,
    l: Seq<Lit>,
) -> bool {
    forall|e: FrameLemma<P>|
        #![trigger new.to_multiset().count(e)]
        #![trigger old.to_multiset().count(e)]
        new.to_multiset().count(e) <= old.to_multiset().count(e) && (new.to_multiset().count(e)
            < old.to_multiset().count(e) ==> subsumes(l, e@))
}

/// Frame `k` or one above it holds a lemma that subsumes `c`.
pub open spec fn covered<P>(fs: Seq<Seq<FrameLemma<P>>>, k: int, c: Seq<Lit>) -> bool {
    exists|i: int, j: int|
        k <= i < fs.len() && 0 <= j < fs[i].len() && subsumes((#[trigger] fs[i][j])@, c)
}

/// Every sequence of literals subsumes itself.
pub proof fn lemma_subsumes_refl(c: Seq<Lit>)
    ensures
        subsumes(c, c),
{
    assert forall|q: int| 0 <= q < c.len() implies c.contains(#[trigger] c[q]) by {}
}

/// A lemma that stays in frame `i`, or that a lemma of frame `k >= i`
/// subsumes, is still covered from frame `i` on.
proof fn lemma_covered_after<P>(
    w: Seq<Seq<FrameLemma<P>>>,
    i: int,
    k: int,
    e: FrameLemma<P>,
    by_kept: bool,
    j: int,
)
    requires
        0 <= i <= k < w.len(),
        0 <= j < w[k].len(),
        by_kept ==> k == i && w[k][j] == e,
        !by_kept ==> subsumes(w[k][j]@, e@),
    ensures
        covered(w, i, e@),
{
    lemma_subsumes_refl(e@);
    assert(subsumes(w[k][j]@, e@));
}

/// A lemma that `removed_subsumed_by` lets go is subsumed by `l`; one it
/// keeps is still there.
proof fn lemma_kept_or_subsumed<P>(
    old: Seq<FrameLemma<P>>,
    new: Seq<FrameLemma<P>>,
    l: Seq<Lit>,
    q: int,
) -> (j: int)
    requires
        removed_subsumed_by(old, new, l),
        0 <= q < old.len(),
    ensures
        (0 <= j < new.len() && new[j] == old[q]) || (j == -1 && subsumes(l, old[q]@)),
{
    let e = old[q];
    assert(old.to_multiset().count(e) > 0);
    if new.to_multiset().count(e) > 0 {
        assert(new.contains(e));
        choose|j: int| 0 <= j < new.len() && new[j] == e
    } else {
        -1
    }
}

/// No lemma of `f` subsumes `l`.
pub open spec fn none_subsumes<P>(f: Seq<FrameLemma<P>>, l: Seq<Lit>) -> bool {
    forall|j: int| 0 <= j < f.len() ==> !subsumes((#[trigger] f[j])@, l)
}

/// `l` subsumes no lemma of `f`.
pub open spec fn subsumes_none<P>(f: Seq<FrameLemma<P>>, l: Seq<Lit>) -> bool {
    forall|j: int| 0 <= j < f.len() ==> !subsumes(l, (#[trigger] f[j])@)
}

/// After `swap_remove`, the multiset has lost exactly the removed element.
pub proof fn lemma_swap_remove_multiset<A>(s: Seq<A>, i: int)
    requires
        0 <= i < s.len(),
    ensures
        s.update(i, s.last()).drop_last().to_multiset() == s.to_multiset().remove(s[i]),
{
    let t = s.update(i, s.last());
    if i == s.len() - 1 {
        assert(t.drop_last() =~= s.remove(i));
        to_multiset_remove(s, i);
    } else {
        assert(t =~= s.remove(i).insert(i, s.last()));
        to_multiset_remove(s, i);
        to_multiset_insert(s.remove(i), i, s.last());
        assert(t =~= t.drop_last().push(t.last()));
        to_multiset_build(t.drop_last(), t.last());
        let a = t.drop_last().to_multiset();
        let b = s.to_multiset().remove(s[i]);
        assert(a.insert(s.last()) == b.insert(s.last()));
        assert forall|x: A| a.count(x) == b.count(x) by {
            assert(a.insert(s.last()).count(x) == b.insert(s.last()).count(x));
        }
        assert(a =~= b);
    }
}

/// The lemmas of frame `k` of `w` other than the one just added at the end
/// of frame `frame`.
pub open spec fn kept<P>(w: Seq<Seq<FrameLemma<P>>>, frame: int, k: int) -> Seq<FrameLemma<P>> {
    if k == frame {
        w[k].drop_last()
    } else {
        w[k]
    }
}

/// `f` with the lemma at `j` taken out and the last lemma put in its place.
pub open spec fn swap_removed<P>(f: Seq<FrameLemma<P>>, j: int) -> Seq<FrameLemma<P>> {
    f.update(j, f.last()).drop_last()
}

/// The scan of frame `f` for `l` from position `j` on: a lemma that
/// subsumes `l` stops it, and its position is given; a lemma that `l`
/// subsumes is swapped out for the last one, which is looked at next; any
/// other lemma is passed. Gives the frame as the scan leaves it and where it
/// stopped, if it did.
pub open spec fn scanned<P>(f: Seq<FrameLemma<P>>, l: Seq<Lit>, j: int) -> (Seq<FrameLemma<P>>, Option<int>)
    decreases f.len() - j,
{
    if 0 <= j < f.len() {
        if subsumes(f[j]@, l) {
            (f, Some(j))
        } else if subsumes(l, f[j]@) {
            scanned(swap_removed(f, j), l, j)
        } else {
            scanned(f, l, j + 1)
        }
    } else {
        (f, None)
    }
}

/// Scans the lemmas of one frame in order: drops each lemma that `lemma`
/// subsumes, and stops at the first lemma that subsumes `lemma`, giving its
/// position and whether it equals `lemma`.
fn scan_frame<P>(v: &mut Vec<FrameLemma<P>>, lemma: &Lemma) -> (r: Option<(usize, bool)>)
    ensures
        final(v)@ == scanned(old(v)@, lemma@, 0).0,
        match r {
            None => scanned(old(v)@, lemma@, 0).1 is None,
            Some((j, _)) => scanned(old(v)@, lemma@, 0).1 == Some(j as int),
        },
        removed_subsumed_by(old(v)@, final(v)@, lemma@),
        match r {
            None => none_subsumes(old(v)@, lemma@) && subsumes_none(final(v)@, lemma@),
            Some((j, eq)) => j < final(v)@.len() && subsumes(final(v)@[j as int]@, lemma@) && eq
                == (final(v)@[j as int]@ == lemma@),
        },
{
    let mut j: usize = 0;
    while j < v.len()
        invariant
            j <= v@.len(),
            scanned(v@, lemma@, j as int) == scanned(old(v)@, lemma@, 0),
            removed_subsumed_by(old(v)@, v@, lemma@),
            forall|e: FrameLemma<P>|
                #![trigger v@.to_multiset().count(e)]
                v@.to_multiset().count(e) < old(v)@.to_multiset().count(e) ==> !subsumes(
                    e@,
                    lemma@,
                ),
            forall|k: int|
                0 <= k < j ==> !subsumes((#[trigger] v@[k])@, lemma@) && !subsumes(
                    lemma@,
                    v@[k]@,
                ),
        decreases v@.len() - j,
    {
        if v[j].lemma.subsume(lemma) {
            let eq = v[j].lemma.eq(lemma);
            return Some((j, eq));
        }
        if lemma.subsume(&v[j].lemma) {
            let ghost prev = v@;
            proof {
                lemma_swap_remove_multiset(v@, j as int);
            }
            v.swap_remove(j);
            proof {
                assert forall|e: FrameLemma<P>|
                    #![trigger old(v)@.to_multiset().count(e)]
                    v@.to_multiset().count(e) <= old(v)@.to_multiset().count(e) && (
                    v@.to_multiset().count(e) < old(v)@.to_multiset().count(e) ==> subsumes(
                        lemma@,
                        e@,
                    )) by {
                    assert(prev.to_multiset().count(e) <= old(v)@.to_multiset().count(e));
                }
                assert forall|e: FrameLemma<P>|
                    #![trigger v@.to_multiset().count(e)]
                    v@.to_multiset().count(e) < old(v)@.to_multiset().count(e) implies !subsumes(
                    e@,
                    lemma@,
                ) by {
                    assert(prev.to_multiset().count(e) <= old(v)@.to_multiset().count(e));
                }
            }
            continue;
        }
        j += 1;
    }
    proof {
        assert forall|k: int| 0 <= k < old(v)@.len() implies !subsumes(
            (#[trigger] old(v)@[k])@,
            lemma@,
        ) by {
            let e = old(v)@[k];
            assert(old(v)@.to_multiset().count(e) > 0);
            if v@.to_multiset().count(e) > 0 {
                assert(v@.contains(e));
                let q = choose|q: int| 0 <= q < v@.len() && v@[q] == e;
                assert(!subsumes(v@[q]@, lemma@));
            }
        }
    }
    None
}

/// The literals of each lemma of a frame.
pub open spec fn frame_cubes<P>(f: Seq<FrameLemma<P>>) -> Seq<Seq<Lit>> {
    f.map_values(|fl: FrameLemma<P>| fl@)
}

/// The literals of the lemmas of frames `k` and above, frame by frame.
pub open spec fn cubes_from<P>(fs: Seq<Seq<FrameLemma<P>>>, k: int) -> Seq<Seq<Lit>>
    decreases fs.len() - k,
{
    if 0 <= k < fs.len() {
        frame_cubes(fs[k]) + cubes_from(fs, k + 1)
    } else {
        Seq::empty()
    }
}

/// Frame `k` is the first frame that holds no lemma.
pub open spec fn first_empty<P>(fs: Seq<Seq<FrameLemma<P>>>, k: int) -> bool {
    &&& 0 <= k < fs.len()
    &&& fs[k].len() == 0
    &&& forall|q: int| 0 <= q < k ==> (#[trigger] fs[q]).len() > 0
}

/// The literals of each lemma.
pub open spec fn lemma_views(v: Seq<Lemma>) -> Seq<Seq<Lit>> {
    v.map_values(|l: Lemma| l@)
}

/// Literal sequences in the order of lemmas.
pub open spec fn lex_sorted(s: Seq<Seq<Lit>>) -> bool {
    forall|a: int, b: int| 0 <= a < b < s.len() ==> lex_le(#[trigger] s[a], #[trigger] s[b])
}

/// Inserts `x` into lemmas kept in order, after those not above it.
fn insert_sorted(res: &mut Vec<Lemma>, x: Lemma)
    requires
        lex_sorted(lemma_views(old(res)@)),
    ensures
        lex_sorted(lemma_views(final(res)@)),
        lemma_views(final(res)@).to_multiset() == lemma_views(old(res)@).to_multiset().insert(x@),
{
    let ghost s = lemma_views(res@);
    let mut p: usize = 0;
    while p < res.len() && res[p].le(&x)
        invariant
            res@ == old(res)@,
            s == lemma_views(res@),
            0 <= p <= res@.len(),
            forall|q: int| 0 <= q < p ==> lex_le(#[trigger] s[q], x@),
        decreases res@.len() - p,
    {
        p += 1;
    }
    let ghost xv = x@;
    proof {
        if p < s.len() {
            lemma_lex_total(s[p as int], xv);
        }
    }
    res.insert(p, x);
    proof {
        let t = lemma_views(res@);
        assert(t =~= s.insert(p as int, xv));
        to_multiset_insert(s, p as int, xv);
        assert forall|a: int, b: int| 0 <= a < b < t.len() implies lex_le(#[trigger] t[a], #[trigger] t[b]) by {
            if b == p {
                assert(lex_le(s[a], xv));
            } else if a == p {
                assert(lex_le(xv, s[p as int]));
                if b - 1 > p {
                    assert(lex_le(s[p as int], s[b - 1]));
                    lemma_lex_transitive(xv, s[p as int], s[b - 1]);
                }
            } else if a < p && b > p {
                assert(lex_le(s[a], xv));
                assert(lex_le(xv, s[p as int]));
                lemma_lex_transitive(s[a], xv, s[p as int]);
                if b - 1 > p {
                    assert(lex_le(s[p as int], s[b - 1]));
                    lemma_lex_transitive(s[a], s[p as int], s[b - 1]);
                }
            } else if a < p {
                assert(lex_le(s[a], s[b]));
            } else {
                assert(lex_le(s[a - 1], s[b - 1]));
            }
        }
    }
}

/// The lemmas among `cubes` that subsume `l`, in order.
pub open spec fn parents(cubes: Seq<Seq<Lit>>, l: Seq<Lit>) -> Seq<Seq<Lit>>
    decreases cubes.len(),
{
    if cubes.len() == 0 {
        Seq::empty()
    } else {
        let p = parents(cubes.drop_last(), l);
        if subsumes(cubes.last(), l) {
            p.push(cubes.last())
        } else {
            p
        }
    }
}

/// The first lemma among `cubes` that subsumes `l`, if any.
pub open spec fn first_parent(cubes: Seq<Seq<Lit>>, l: Seq<Lit>) -> Option<Seq<Lit>>
    decreases cubes.len(),
{
    if cubes.len() == 0 {
        None
    } else if subsumes(cubes[0], l) {
        Some(cubes[0])
    } else {
        first_parent(cubes.drop_first(), l)
    }
}

/// The parents of `cubes` are those of its first lemma, then those of the
/// rest.
proof fn lemma_parents_cons(cubes: Seq<Seq<Lit>>, l: Seq<Lit>)
    requires
        cubes.len() > 0,
    ensures
        parents(cubes, l) == (if subsumes(cubes[0], l) {
            seq![cubes[0]]
        } else {
            Seq::empty()
        }) + parents(cubes.drop_first(), l),
    decreases cubes.len(),
{
    if cubes.len() == 1 {
        assert(cubes.drop_first() =~= Seq::<Seq<Lit>>::empty());
        assert(cubes.drop_last() =~= Seq::<Seq<Lit>>::empty());
    } else {
        lemma_parents_cons(cubes.drop_last(), l);
        assert(cubes.drop_last().drop_first() =~= cubes.drop_first().drop_last());
        assert(cubes.drop_first().last() == cubes.last());
        assert(cubes.drop_last()[0] == cubes[0]);
    }
}

/// The first parent of a lemma is the first of its parents, and there is
/// none where it has no parents: `_parent_lemma` gives the first lemma that
/// `_parent_lemmas` gives.
pub proof fn law_first_parent(cubes: Seq<Seq<Lit>>, l: Seq<Lit>)
    ensures
        first_parent(cubes, l) == if parents(cubes, l).len() > 0 {
            Some(parents(cubes, l)[0])
        } else {
            None::<Seq<Lit>>
        },
    decreases cubes.len(),
{
    if cubes.len() > 0 {
        lemma_parents_cons(cubes, l);
        law_first_parent(cubes.drop_first(), l);
    }
}

/// The parents found in a prefix start the parents of the whole.
pub proof fn lemma_parents_prefix(s: Seq<Seq<Lit>>, l: Seq<Lit>, j: int)
    requires
        0 <= j <= s.len(),
    ensures
        parents(s.take(j), l).len() <= parents(s, l).len(),
        forall|k: int|
            0 <= k < parents(s.take(j), l).len() ==> #[trigger] parents(s.take(j), l)[k]
                == parents(s, l)[k],
    decreases s.len(),
{
    if j == s.len() {
        assert(s.take(j) =~= s);
    } else {
        lemma_parents_prefix(s.drop_last(), l, j);
        assert(s.drop_last().take(j) =~= s.take(j));
    }
}

/// The literals of `l` that occur in `cube`, in the order of `l`.
pub open spec fn restrict(l: Seq<Lit>, cube: Seq<Lit>) -> Seq<Lit>
    decreases l.len(),
{
    if l.len() == 0 {
        Seq::empty()
    } else {
        let p = restrict(l.drop_last(), cube);
        if cube.contains(l.last()) {
            p.push(l.last())
        } else {
            p
        }
    }
}

/// The codes of literals.
pub open spec fn codes_of(s: Seq<Lit>) -> Seq<u32> {
    s.map_values(|l: Lit| l.0)
}

/// The literals of codes.
pub open spec fn lits_of(c: Seq<u32>) -> Seq<Lit> {
    c.map_values(|x: u32| Lit(x))
}

/// `c` is the part of a lemma of frame `frame` or above that lies in `cube`,
/// shorter than `cube` and at least half as long.
pub open spec fn similar_candidate<P>(
    fs: Seq<Seq<FrameLemma<P>>>,
    frame: int,
    cube: Seq<Lit>,
    c: Seq<Lit>,
) -> bool {
    &&& c.len() != cube.len()
    &&& 2 * c.len() >= cube.len()
    &&& exists|i: int, j: int|
        frame <= i < fs.len() && 0 <= j < fs[i].len() && c == restrict((#[trigger] fs[i][j])@, cube)
}

/// The part of `lemma` in `cube`, as codes: the codes of `restrict`.
fn restrict_codes(lemma: &Lemma, cube: &[Lit], cube_set: &crate::ghash::CodeSet) -> (r: Vec<u32>)
    requires
        forall|c: u32| #[trigger] code_set_view(*cube_set).contains(c) <==> cube@.contains(Lit(c)),
    ensures
        r@ == codes_of(restrict(lemma@, cube@)),
{
    let l = lemma.cube();
    let mut sec: Vec<u32> = Vec::new();
    let mut k: usize = 0;
    while k < l.len()
        invariant
            l@ == lemma@,
            0 <= k <= l@.len(),
            sec@ == codes_of(restrict(l@.take(k as int), cube@)),
            forall|c: u32| #[trigger] code_set_view(*cube_set).contains(c) <==> cube@.contains(Lit(c)),
        decreases l@.len() - k,
    {
        let x = l[k].0;
        proof {
            assert(l@.take(k + 1).drop_last() =~= l@.take(k as int));
            assert(Lit(x) == l@[k as int]);
        }
        if code_set_contains(cube_set, x) {
            sec.push(x);
            proof {
                assert(sec@ =~= codes_of(restrict(l@.take(k as int), cube@).push(l@[k as int])));
            }
        }
        k += 1;
    }
    proof {
        assert(l@.take(k as int) =~= l@);
    }
    sec
}

/// The literals of the codes `c`.
fn to_lits(c: &Vec<u32>) -> (r: LitVec)
    ensures
        r@ == lits_of(c@),
{
    let mut r: Vec<Lit> = Vec::new();
    let mut k: usize = 0;
    while k < c.len()
        invariant
            0 <= k <= c@.len(),
            r@ =~= lits_of(c@.take(k as int)),
        decreases c@.len() - k,
    {
        r.push(Lit(c[k]));
        k += 1;
    }
    proof {
        assert(c@.take(k as int) =~= c@);
    }
    r
}

/// The frames of the IC3 procedure: frame `i` holds lemmas that no state
/// reachable in `i` steps violates.
pub struct Frames<P> {
    frames: Vec<Frame<P>>,
    pub early: usize,
    pub tmp_lit_set: LitSet,
}

impl<P> View for Frames<P> {
    type V = Seq<Seq<FrameLemma<P>>>;

    closed spec fn view(&self) -> Seq<Seq<FrameLemma<P>>> {
        self.frames@.map_values(|f: Frame<P>| f@)
    }
}

/// The outcome of adding a lemma to the frames.
pub struct AddedLemma {
    /// Some frame below the lemma's own became empty: an inductive
    /// invariant has been found.
    pub inv_found: bool,
    /// The solvers of frames `clause_from` up to the lemma's frame are to
    /// learn the clause that blocks the lemma; `None` when the frames
    /// already held a lemma that subsumes it and nothing changed.
    pub clause_from: Option<usize>,
    /// The solver of bad states is to learn the clause too.
    pub to_bad_solver: bool,
    /// The frame from which an equal lemma was moved up.
    pub moved_from: Option<usize>,
}

impl<P> Frames<P> {
    /// The earliest frame that changed since the frames were last propagated.
    pub closed spec fn early_val(&self) -> usize {
        self.early
    }

    /// The scratch set of literals.
    pub closed spec fn scratch(&self) -> LitSet {
        self.tmp_lit_set
    }

    /// The scratch set is empty and every lemma's literals fit in it: a
    /// containment check marks a lemma's literals in that set, so every
    /// lemma the frames hold must lie within its range.
    pub open spec fn wf(&self) -> bool {
        &&& self.scratch().wf()
        &&& self.scratch()@ == Set::<Lit>::empty()
        &&& all_lits_below(self@, self.scratch().cap())
    }

    /// No frames yet; the scratch set holds the literals of the variables
    /// up to `max_latch`.
    pub fn new(max_latch: Var) -> (r: Self)
        ensures
            r.wf(),
            r@ == Seq::<Seq<FrameLemma<P>>>::empty(),
            r.early_val() == 1,
            r.scratch().cap() == 2 * (max_latch.0 + 1),
    {
        let tmp_lit_set = LitSet::new_with(max_latch);
        let r = Frames { frames: Vec::new(), early: 1, tmp_lit_set };
        assert(r@ =~= Seq::<Seq<FrameLemma<P>>>::empty());
        r
    }

    /// Looks, from frame `frame` on, for a lemma that subsumes `lemma`, and
    /// gives the first one's frame and position.
    pub fn trivial_contained(&mut self, frame: usize, lemma: &Lemma) -> (r: Option<(usize, usize)>)
        requires
            old(self).wf(),
            lits_below(lemma@, old(self).scratch().cap()),
        ensures
            final(self).wf(),
            final(self)@ == old(self)@,
            final(self).early_val() == old(self).early_val(),
            final(self).scratch().cap() == old(self).scratch().cap(),
            match r {
                None => forall|i: int, j: int|
                    frame <= i < old(self)@.len() && 0 <= j < old(self)@[i].len() ==> !subsumes(
                        (#[trigger] old(self)@[i][j])@,
                        lemma@,
                    ),
                Some((i, j)) => {
                    &&& frame <= i < old(self)@.len()
                    &&& j < old(self)@[i as int].len()
                    &&& subsumes(old(self)@[i as int][j as int]@, lemma@)
                    &&& forall|i2: int, j2: int|
                        frame <= i2 && (i2 < i || (i2 == i && j2 < j)) && 0 <= j2 < old(
                            self,
                        )@[i2].len() ==> !subsumes((#[trigger] old(self)@[i2][j2])@, lemma@)
                },
            },
    {
        let n = lemma.len();
        let mut k: usize = 0;
        while k < n
            invariant
                n == lemma@.len(),
                0 <= k <= n,
                self.tmp_lit_set.wf(),
                self.tmp_lit_set.cap() == old(self).tmp_lit_set.cap(),
                lits_below(lemma@, old(self).scratch().cap()),
                forall|l: Lit|
                    #[trigger] self.tmp_lit_set@.contains(l) <==> exists|q: int|
                        0 <= q < k && lemma@[q] == l,
                self.frames == old(self).frames,
                self.early == old(self).early,
            decreases n - k,
        {
            self.tmp_lit_set.insert(lemma.cube()[k]);
            k += 1;
        }
        let len = self.frames.len();
        let mut i: usize = frame;
        while i < len
            invariant
                len == self@.len(),
                self.tmp_lit_set.wf(),
                self.tmp_lit_set.cap() == old(self).tmp_lit_set.cap(),
                forall|l: Lit| #[trigger] self.tmp_lit_set@.contains(l) <==> lemma@.contains(l),
                self.frames == old(self).frames,
                self.early == old(self).early,
                old(self).wf(),
                frame <= i,
                forall|i2: int, j2: int|
                    frame <= i2 < i && 0 <= j2 < old(self)@[i2].len() ==> !subsumes(
                        (#[trigger] old(self)@[i2][j2])@,
                        lemma@,
                    ),
            decreases len - i,
        {
            let m = self.frames[i].lemmas.len();
            let mut j: usize = 0;
            while j < m
                invariant
                    len == self@.len(),
                    frame <= i < len,
                    m == self@[i as int].len(),
                    0 <= j <= m,
                    self.tmp_lit_set.wf(),
                    self.tmp_lit_set.cap() == old(self).tmp_lit_set.cap(),
                    forall|l: Lit| #[trigger] self.tmp_lit_set@.contains(l) <==> lemma@.contains(l),
                    self.frames == old(self).frames,
                    self.early == old(self).early,
                    old(self).wf(),
                    forall|i2: int, j2: int|
                        frame <= i2 && (i2 < i || (i2 == i && j2 < j)) && 0 <= j2 < old(
                            self,
                        )@[i2].len() ==> !subsumes((#[trigger] old(self)@[i2][j2])@, lemma@),
                decreases m - j,
            {
                assert(lits_below(old(self)@[i as int][j as int]@, old(self).scratch().cap()));
                if self.frames[i].lemmas[j].lemma.subsume_set(lemma, &self.tmp_lit_set) {
                    self.tmp_lit_set.clear();
                    return Some((i, j));
                }
                j += 1;
            }
            i += 1;
        }
        self.tmp_lit_set.clear();
        None
    }

    /// Scans the frames from `frame` down to 1 with `scan_frame`, until one
    /// holds a lemma that subsumes `lemma`. Gives the frame where the scan
    /// stopped (0 when it went through), what was found there, and whether a
    /// frame strictly between the stop and `frame` is empty.
    #[verifier::spinoff_prover]
    fn scan_frames(&mut self, frame: usize, lemma: &Lemma) -> (r: (usize, Option<(usize, bool)>, bool))
        requires
            old(self).wf(),
            1 <= frame < old(self)@.len(),
            lits_below(lemma@, old(self).scratch().cap()),
        ensures
            ({
                let (i, found, inv_found) = r;
                let v = old(self)@;
                let w = final(self)@;
                &&& final(self).wf()
                &&& w.len() == v.len()
                &&& final(self).scratch().cap() == old(self).scratch().cap()
                &&& final(self).early_val() == old(self).early_val()
                &&& i <= frame
                &&& found is None ==> i == 0 && w[0] == v[0]
                &&& found matches Some((j, eq)) ==> {
                    &&& i >= 1
                    &&& forall|k: int| 0 <= k < i ==> w[k] == v[k]
                    &&& w[i as int] == scanned(v[i as int], lemma@, 0).0
                    &&& scanned(v[i as int], lemma@, 0).1 == Some(j as int)
                    &&& removed_subsumed_by(v[i as int], w[i as int], lemma@)
                    &&& j < w[i as int].len()
                    &&& subsumes(w[i as int][j as int]@, lemma@)
                    &&& eq == (w[i as int][j as int]@ == lemma@)
                }
                &&& forall|k: int| frame < k < v.len() ==> w[k] == v[k]
                &&& forall|k: int|
                    i < k <= frame ==> w[k] == scanned(v[k], lemma@, 0).0 && scanned(
                        v[k],
                        lemma@,
                        0,
                    ).1 is None
                &&& forall|k: int|
                    i < k <= frame ==> {
                        &&& removed_subsumed_by(v[k], w[k], lemma@)
                        &&& none_subsumes(v[k], lemma@)
                        &&& subsumes_none(w[k], lemma@)
                    }
                &&& inv_found == exists|k: int| i < k < frame && (#[trigger] w[k]).len() == 0
            }),
    {
        let ghost v = self@;
        let nframes = self.frames.len();
        let mut inv_found = false;
        let mut found: Option<(usize, bool)> = None;
        let mut i: usize = frame;
        while i >= 1 && found.is_none()
            invariant
                1 <= frame < v.len(),
                self@.len() == v.len(),
                self.frames@.len() == v.len(),
                nframes == v.len(),
                v == old(self)@,
                self.wf(),
                lits_below(lemma@, self.scratch().cap()),
                self.scratch().cap() == old(self).scratch().cap(),
                self.early == old(self).early,
                0 <= i <= frame,
                found is None ==> forall|k: int| 0 <= k <= i ==> self@[k] == v[k],
                found matches Some((j, eq)) ==> {
                    &&& i >= 1
                    &&& forall|k: int| 0 <= k < i ==> self@[k] == v[k]
                    &&& self@[i as int] == scanned(v[i as int], lemma@, 0).0
                    &&& scanned(v[i as int], lemma@, 0).1 == Some(j as int)
                    &&& removed_subsumed_by(v[i as int], self@[i as int], lemma@)
                    &&& j < self@[i as int].len()
                    &&& subsumes(self@[i as int][j as int]@, lemma@)
                    &&& eq == (self@[i as int][j as int]@ == lemma@)
                },
                forall|k: int| frame < k < v.len() ==> self@[k] == v[k],
                forall|k: int|
                    i < k <= frame ==> self@[k] == scanned(v[k], lemma@, 0).0 && scanned(
                        v[k],
                        lemma@,
                        0,
                    ).1 is None,
                forall|k: int|
                    i < k <= frame ==> {
                        &&& removed_subsumed_by(v[k], self@[k], lemma@)
                        &&& none_subsumes(v[k], lemma@)
                        &&& subsumes_none(self@[k], lemma@)
                    },
                inv_found == exists|k: int| i < k < frame && (#[trigger] self@[k]).len() == 0,
            decreases i + if found is None {
                1int
            } else {
                0int
            },
        {
            let ghost before = self@;
            let scan = scan_frame(&mut self.frames[i].lemmas, lemma);
            proof {
                assert(self@.len() == before.len());
                assert forall|k: int| 0 <= k < self@.len() && k != i implies self@[k] == before[k] by {}
                assert forall|k: int, e: FrameLemma<P>|
                    0 <= k < before.len() implies #[trigger] self@[k].to_multiset().count(e)
                    <= before[k].to_multiset().count(e) || lits_below(e@, self.scratch().cap()) by {
                    if k != i {
                        assert(self@[k] == before[k]);
                    }
                }
                lemma_all_lits_below(before, self@, self.scratch().cap());
            }
            match scan {
                Some(x) => {
                    found = Some(x);
                    proof {
                        assert forall|k: int| i < k <= frame implies (removed_subsumed_by(
                            v[k],
                            self@[k],
                            lemma@,
                        ) && none_subsumes(v[k], lemma@) && subsumes_none(self@[k], lemma@)) by {
                            assert(self@[k] == before[k]);
                        }
                        if inv_found {
                            let k = choose|k: int| i < k < frame && (#[trigger] before[k]).len() == 0;
                            assert(self@[k] == before[k]);
                        }
                        if exists|k: int| i < k < frame && (#[trigger] self@[k]).len() == 0 {
                            let k = choose|k: int| i < k < frame && (#[trigger] self@[k]).len() == 0;
                            assert(self@[k] == before[k]);
                        }
                    }
                },
                None => {
                    assert(self@[i as int] == self.frames@[i as int].lemmas@);
                    assert(before[i as int] == v[i as int]);
                    assert(self@[i as int] == scanned(v[i as int], lemma@, 0).0);
                    assert(scanned(v[i as int], lemma@, 0).1 is None);
                    let empty = self.frames[i].lemmas.len() == 0;
                    let ghost prev_inv = inv_found;
                    if i != frame && empty {
                        inv_found = true;
                    }
                    proof {
                        if prev_inv {
                            let k = choose|k: int| i < k < frame && (#[trigger] before[k]).len() == 0;
                            assert(self@[k] == before[k]);
                        }
                        if exists|k: int| i - 1 < k < frame && (#[trigger] self@[k]).len() == 0 {
                            let k = choose|k: int| i - 1 < k < frame && (#[trigger] self@[k]).len() == 0;
                            if k > i {
                                assert(self@[k] == before[k]);
                                assert(before[k].len() == 0);
                            }
                        }
                    }
                    i -= 1;
                },
            }
        }
        (i, found, inv_found)
    }

    /// Adds the lemma of the cube `lemma` to frame `frame`.
    ///
    /// In frame 0 the lemma is only added. Above it, with `contained_check`,
    /// nothing changes when a lemma in frame `frame` or above already
    /// subsumes it. Otherwise the frames from `frame` down to 1 are scanned:
    /// lemmas that the new one subsumes are dropped, and the scan stops at the
    /// first lemma it meets that subsumes the new one (see `scanned`); if
    /// that lemma equals it, it is moved up to frame `frame`. The outcome names the solvers that must learn the
    /// clause of the lemma, and whether a frame below became empty.
    ///
    /// The new lemma's literals must fit in the scratch set, as those of
    /// every lemma of the frames do (`wf`), in every case: once added, the
    /// lemma is marked there by later containment checks.
    #[verifier::spinoff_prover]
    #[verifier::rlimit(40)]
    pub fn add_lemma(
        &mut self,
        frame: usize,
        lemma: LitVec,
        contained_check: bool,
        po: Option<P>,
        no_pred_prop: bool,
    ) -> (r: AddedLemma)
        requires
            old(self).wf(),
            frame < old(self)@.len(),
            frame == 0 ==> old(self)@.len() == 1,
            lits_below(lemma@, old(self).scratch().cap()),
        ensures
            final(self).wf(),
            final(self)@.len() == old(self)@.len(),
            final(self).scratch().cap() == old(self).scratch().cap(),
            r.to_bad_solver == (r.clause_from is Some && !no_pred_prop && frame == old(self)@.len()
                - 1),
            lemma_added(
                old(self)@,
                final(self)@,
                frame as int,
                lemma_of(lemma@),
                contained_check,
                r.clause_from,
                r.moved_from,
            ),
            covered(final(self)@, frame as int, lemma_of(lemma@)),
            forall|i: int, j: int|
                0 <= i < old(self)@.len() && 0 <= j < old(self)@[i].len() ==> covered(
                    final(self)@,
                    i,
                    (#[trigger] old(self)@[i][j])@,
                ),
            frame == 0 ==> {
                &&& r.clause_from == Some(0usize)
                &&& !r.inv_found
                &&& r.moved_from is None
                &&& final(self)@[0].drop_last() == old(self)@[0]
                &&& final(self).early_val() == old(self).early_val()
            },
            frame > 0 ==> (r.clause_from is None <==> contained_check && exists|i: int, j: int|
                frame <= i < old(self)@.len() && 0 <= j < old(self)@[i].len() && subsumes(
                    (#[trigger] old(self)@[i][j])@,
                    lemma_of(lemma@),
                )),
            r.clause_from is None ==> {
                &&& final(self)@ == old(self)@
                &&& final(self).early_val() == old(self).early_val()
                &&& !r.inv_found
                &&& r.moved_from is None
            },
            r.clause_from is Some ==> {
                &&& final(self)@[frame as int].len() > 0
                &&& final(self)@[frame as int].last()@ == lemma_of(lemma@)
                &&& final(self)@[frame as int].last().po_val() == po
                &&& final(self)@[frame as int].last().ctp_val() is None
            },
            frame > 0 && r.clause_from is Some ==> {
                let b = r.clause_from->0 as int;
                let v = old(self)@;
                let w = final(self)@;
                let lm = lemma_of(lemma@);
                &&& 1 <= b <= frame + 1
                &&& final(self).early_val() == if old(self).early_val() < b {
                    old(self).early_val() as int
                } else {
                    b
                }
                &&& forall|k: int| frame < k < v.len() ==> w[k] == v[k]
                &&& forall|k: int| 0 <= k < v.len() && (k < b - 1 || k == 0) ==> w[k] == v[k]
                &&& forall|k: int|
                    b <= k <= frame ==> {
                        &&& removed_subsumed_by(v[k], kept(w, frame as int, k), lm)
                        &&& none_subsumes(v[k], lm)
                        &&& subsumes_none(kept(w, frame as int, k), lm)
                    }
                &&& forall|k: int|
                    b <= k <= frame ==> kept(w, frame as int, k) == scanned(v[k], lm, 0).0
                        && scanned(v[k], lm, 0).1 is None
                &&& b >= 2 ==> {
                    let s = scanned(v[b - 1], lm, 0).0;
                    let p = scanned(v[b - 1], lm, 0).1;
                    &&& p is Some
                    &&& (r.moved_from is Some <==> s[p->0]@ == lm)
                    &&& kept(w, frame as int, b - 1) == if s[p->0]@ == lm {
                        swap_removed(s, p->0)
                    } else {
                        s
                    }
                }
                &&& b >= 2 ==> removed_subsumed_by(v[b - 1], kept(w, frame as int, b - 1), lm)
                &&& r.moved_from matches Some(x) ==> {
                    &&& x == b - 1
                    &&& b >= 2
                    &&& exists|e: FrameLemma<P>|
                        v[x as int].to_multiset().count(e) > kept(
                            w,
                            frame as int,
                            x as int,
                        ).to_multiset().count(e) && e@ == lm
                }
                &&& r.moved_from is None && b >= 2 ==> exists|j: int|
                    0 <= j < kept(w, frame as int, b - 1).len() && subsumes(
                        (#[trigger] kept(w, frame as int, b - 1)[j])@,
                        lm,
                    ) && kept(w, frame as int, b - 1)[j]@ != lm
                &&& r.inv_found == match r.moved_from {
                    Some(x) => w[x as int].len() == 0,
                    None => exists|k: int| b <= k < frame && (#[trigger] w[k]).len() == 0,
                }
            },
    {
        let ghost cube = lemma@;
        let lemma = Lemma::new(lemma);
        let ghost lm = lemma@;
        proof {
            lemma_lemma_of(cube, lm);
            assert forall|k: int| 0 <= k < lm.len() implies (#[trigger] lm[k]).0 < old(
                self,
            ).scratch().cap() by {
                assert(lm.to_multiset().count(lm[k]) > 0);
                assert(cube.contains(lm[k]));
            }
        }
        let to_bad = !no_pred_prop && self.frames.len() - 1 == frame;
        if frame == 0 {
            let ghost before = self@;
            self.frames[0].lemmas.push(FrameLemma::new(lemma, po, None));
            proof {
                assert(self@[0] == before[0].push(self@[0].last()));
                assert forall|k: int, e: FrameLemma<P>|
                    0 <= k < before.len() implies #[trigger] self@[k].to_multiset().count(e)
                    <= before[k].to_multiset().count(e) || lits_below(e@, self.scratch().cap()) by {
                    if e != self@[0].last() {
                        to_multiset_build(before[0], self@[0].last());
                    }
                }
                lemma_all_lits_below(before, self@, self.scratch().cap());
                let w = self@;
                let last = (w[0].len() - 1) as int;
                lemma_subsumes_refl(lm);
                assert(subsumes(w[0][last]@, lm));
                assert forall|i: int, j: int|
                    0 <= i < before.len() && 0 <= j < before[i].len() implies covered(
                    w,
                    i,
                    (#[trigger] before[i][j])@,
                ) by {
                    assert(w[0][j] == before[0][j]);
                    lemma_covered_after(w, i, i, before[i][j], true, j);
                }
            }
            return AddedLemma {
                inv_found: false,
                clause_from: Some(0),
                to_bad_solver: to_bad,
                moved_from: None,
            };
        }
        if contained_check {
            if self.trivial_contained(frame, &lemma).is_some() {
                proof {
                    let w = self@;
                    assert forall|i: int, j: int|
                        0 <= i < w.len() && 0 <= j < w[i].len() implies covered(
                        w,
                        i,
                        (#[trigger] w[i][j])@,
                    ) by {
                        lemma_covered_after(w, i, i, w[i][j], true, j);
                    }
                }
                return AddedLemma {
                    inv_found: false,
                    clause_from: None,
                    to_bad_solver: false,
                    moved_from: None,
                };
            }
        }
        let ghost v = self@;
        let nframes = self.frames.len();
        assert(nframes == v.len());
        let (i, found, mut inv_found) = self.scan_frames(frame, &lemma);
        let ghost s1 = self@;
        let begin: usize;
        let mut moved_from: Option<usize> = None;
        match found {
            Some((j, eq)) => {
                begin = i + 1;
                if eq {
                    proof {
                        lemma_swap_remove_multiset(self@[i as int], j as int);
                    }
                    self.frames[i].lemmas.swap_remove(j);
                    moved_from = Some(i);
                    proof {
                        let e = s1[i as int][j as int];
                        assert(self@[i as int].to_multiset() == s1[i as int].to_multiset().remove(e));
                        assert(subsumes(lm, lm)) by {
                            assert forall|q: int| 0 <= q < lm.len() implies lm.contains(#[trigger] lm[q]) by {}
                        }
                        assert forall|e2: FrameLemma<P>|
                            #![trigger self@[i as int].to_multiset().count(e2)]
                            self@[i as int].to_multiset().count(e2) <= v[i as int].to_multiset().count(e2)
                            && (self@[i as int].to_multiset().count(e2) < v[i as int].to_multiset().count(e2)
                            ==> subsumes(lm, e2@)) by {
                            assert(s1[i as int].to_multiset().count(e2) <= v[i as int].to_multiset().count(e2));
                        }
                        assert(v[i as int].to_multiset().count(e) > self@[i as int].to_multiset().count(e));
                        assert forall|k: int| 0 <= k < self@.len() && k != i implies self@[k] == s1[k] by {}
                    }
                }
            },
            None => {
                begin = 1;
            },
        }
        let ghost s2 = self@;
        proof {
            assert forall|k: int, e: FrameLemma<P>|
                0 <= k < s1.len() implies #[trigger] s2[k].to_multiset().count(e)
                <= s1[k].to_multiset().count(e) || lits_below(e@, self.scratch().cap()) by {
                if k != i || moved_from is None {
                    assert(s2[k] == s1[k]);
                }
            }
            lemma_all_lits_below(s1, s2, self.scratch().cap());
        }
        self.frames[frame].lemmas.push(FrameLemma::new(lemma, po, None));
        proof {
            assert(self@[frame as int] == s2[frame as int].push(self@[frame as int].last()));
            assert forall|k: int| 0 <= k < self@.len() && k != frame implies self@[k] == s2[k] by {}
            assert forall|k: int, e: FrameLemma<P>|
                0 <= k < s2.len() implies #[trigger] self@[k].to_multiset().count(e)
                <= s2[k].to_multiset().count(e) || lits_below(e@, self.scratch().cap()) by {
                if k == frame && e != self@[frame as int].last() {
                    to_multiset_build(s2[frame as int], self@[frame as int].last());
                }
            }
            lemma_all_lits_below(s2, self@, self.scratch().cap());
            assert forall|k: int| 0 <= k < self@.len() implies kept(self@, frame as int, k) == s2[k] by {
                if k == frame {
                    assert(self@[k].drop_last() =~= s2[k]);
                }
            }
        }
        if begin < self.early {
            self.early = begin;
        }
        if let Some(x) = moved_from {
            inv_found = self.frames[x].lemmas.len() == 0;
        }
        proof {
            if moved_from is None {
                assert(inv_found == exists|k: int| begin <= k < frame && (#[trigger] self@[k]).len() == 0) by {
                    if inv_found {
                        let k = choose|k: int| i < k < frame && (#[trigger] s1[k]).len() == 0;
                        assert(self@[k] == s1[k]);
                    }
                    if exists|k: int| begin <= k < frame && (#[trigger] self@[k]).len() == 0 {
                        let k = choose|k: int| begin <= k < frame && (#[trigger] self@[k]).len() == 0;
                        assert(self@[k] == s1[k]);
                        assert(s1[k].len() == 0);
                    }
                }
            }
        }
        proof {
            let w = self@;
            let b = begin as int;
            let fi = frame as int;
            let top = (w[fi].len() - 1) as int;
            lemma_subsumes_refl(lm);
            assert(w[fi][top]@ == lm);
            assert(subsumes(w[fi][top]@, lm));
            assert forall|i2: int, j2: int|
                0 <= i2 < v.len() && 0 <= j2 < v[i2].len() implies covered(
                w,
                i2,
                (#[trigger] v[i2][j2])@,
            ) by {
                let e = v[i2][j2];
                if fi < i2 || i2 < b - 1 || i2 == 0 {
                    assert(w[i2] == v[i2]);
                    lemma_covered_after(w, i2, i2, e, true, j2);
                } else {
                    let q = lemma_kept_or_subsumed(v[i2], kept(w, fi, i2), lm, j2);
                    if q >= 0 {
                        assert(kept(w, fi, i2)[q] == w[i2][q]);
                        lemma_covered_after(w, i2, i2, e, true, q);
                    } else {
                        assert(subsumes(w[fi][top]@, e@));
                        lemma_covered_after(w, i2, fi, e, false, top);
                    }
                }
            }
            assert(forall|k: int| frame < k < v.len() ==> w[k] == v[k]);
            assert(forall|k: int| 0 <= k < v.len() && (k < b - 1 || k == 0) ==> w[k] == v[k]);
            assert forall|k: int|
                b <= k <= frame implies {
                    &&& removed_subsumed_by(v[k], kept(w, fi, k), lm)
                    &&& none_subsumes(v[k], lm)
                    &&& subsumes_none(kept(w, fi, k), lm)
                } by {
                assert(kept(w, fi, k) == s2[k]);
                assert(s2[k] == s1[k]);
            }
            assert forall|k: int|
                b <= k <= frame implies kept(w, fi, k) == scanned(v[k], lm, 0).0 && scanned(
                v[k],
                lm,
                0,
            ).1 is None by {
                assert(kept(w, fi, k) == s2[k]);
                assert(s2[k] == s1[k]);
            }
            if b >= 2 {
                let sc = scanned(v[b - 1], lm, 0).0;
                let p = scanned(v[b - 1], lm, 0).1;
                assert(kept(w, fi, b - 1) == s2[b - 1]);
                assert(sc == s1[b - 1]);
                assert(p == Some((found->0).0 as int));
                if sc[p->0]@ == lm {
                    assert(moved_from is Some);
                    assert(s2[b - 1] == swap_removed(sc, p->0));
                } else {
                    assert(moved_from is None);
                    assert(s2[b - 1] == sc);
                }
            }
            assert(b >= 2 ==> removed_subsumed_by(v[b - 1], kept(w, fi, b - 1), lm));
            assert(moved_from matches Some(x) ==> {
                &&& x == b - 1
                &&& b >= 2
                &&& exists|e: FrameLemma<P>|
                    v[x as int].to_multiset().count(e) > kept(w, fi, x as int).to_multiset().count(e)
                        && e@ == lm
            });
            assert(moved_from is None && b >= 2 ==> exists|j: int|
                0 <= j < kept(w, fi, b - 1).len() && subsumes(
                    (#[trigger] kept(w, fi, b - 1)[j])@,
                    lm,
                ) && kept(w, fi, b - 1)[j]@ != lm);
        }
        AddedLemma { inv_found, clause_from: Some(begin), to_bad_solver: to_bad, moved_from }
    }

    /// The lemmas of the first frame that holds none and of all frames
    /// above it, in the order of lemmas: an inductive invariant.
    pub fn invariant_lemmas(&self) -> (r: Vec<Lemma>)
        requires
            exists|k: int| 0 <= k < self@.len() && (#[trigger] self@[k]).len() == 0,
        ensures
            lex_sorted(lemma_views(r@)),
            forall|k: int|
                first_empty(self@, k) ==> lemma_views(r@).to_multiset() == cubes_from(
                    self@,
                    k,
                ).to_multiset(),
    {
        let len = self.frames.len();
        let mut inv: usize = 0;
        while inv < len && self.frames[inv].lemmas.len() != 0
            invariant
                len == self@.len(),
                0 <= inv <= len,
                exists|k: int| 0 <= k < self@.len() && (#[trigger] self@[k]).len() == 0,
                forall|q: int| 0 <= q < inv ==> (#[trigger] self@[q]).len() > 0,
            decreases len - inv,
        {
            inv += 1;
        }
        proof {
            if inv == len {
                let k = choose|k: int| 0 <= k < self@.len() && (#[trigger] self@[k]).len() == 0;
                assert(self@[k].len() > 0);
            }
            assert(first_empty(self@, inv as int));
        }
        let ghost fs = self@;
        let mut res: Vec<Lemma> = Vec::new();
        let ghost mut pushed: Seq<Seq<Lit>> = Seq::empty();
        let mut i: usize = inv;
        while i < len
            invariant
                len == fs.len(),
                fs == self@,
                inv <= i <= len,
                lex_sorted(lemma_views(res@)),
                lemma_views(res@).to_multiset() == pushed.to_multiset(),
                pushed + cubes_from(fs, i as int) == cubes_from(fs, inv as int),
            decreases len - i,
        {
            let f = &self.frames[i].lemmas;
            let m = f.len();
            let mut j: usize = 0;
            proof {
                assert(frame_cubes(fs[i as int]).skip(0) =~= frame_cubes(fs[i as int]));
            }
            while j < m
                invariant
                    len == fs.len(),
                    fs == self@,
                    inv <= i < len,
                    f@ == fs[i as int],
                    m == f@.len(),
                    0 <= j <= m,
                    lex_sorted(lemma_views(res@)),
                    lemma_views(res@).to_multiset() == pushed.to_multiset(),
                    pushed + frame_cubes(fs[i as int]).skip(j as int) + cubes_from(fs, i + 1)
                        == cubes_from(fs, inv as int),
                decreases m - j,
            {
                let c = f[j].lemma.clone();
                proof {
                    let fc = frame_cubes(fs[i as int]);
                    assert(fc.skip(j as int) =~= seq![c@] + fc.skip(j + 1));
                    assert(pushed.push(c@) + fc.skip(j + 1) =~= pushed + fc.skip(j as int));
                    to_multiset_build(pushed, c@);
                    pushed = pushed.push(c@);
                }
                insert_sorted(&mut res, c);
                j += 1;
            }
            proof {
                assert(frame_cubes(fs[i as int]).skip(m as int) =~= Seq::<Seq<Lit>>::empty());
                assert(pushed + Seq::<Seq<Lit>>::empty() =~= pushed);
            }
            i += 1;
        }
        proof {
            assert(cubes_from(fs, len as int) =~= Seq::<Seq<Lit>>::empty());
            assert(pushed + Seq::<Seq<Lit>>::empty() =~= pushed);
            assert forall|k: int| first_empty(self@, k) implies k == inv by {
                if k < inv {
                    assert(self@[k].len() > 0);
                } else if k > inv {
                    assert(self@[inv as int].len() > 0);
                }
            }
        }
        res
    }

    /// The first lemma of frame `frame - 1` that subsumes `lemma`; none for
    /// frame 1.
    pub fn _parent_lemma(&self, lemma: &Lemma, frame: usize) -> (r: Option<Lemma>)
        requires
            frame >= 1,
            frame == 1 || frame - 1 < self@.len(),
        ensures
            frame == 1 ==> r is None,
            frame > 1 ==> match r {
                None => first_parent(frame_cubes(self@[frame - 1]), lemma@) is None,
                Some(c) => first_parent(frame_cubes(self@[frame - 1]), lemma@) == Some(c@),
            },
    {
        if frame == 1 {
            return None;
        }
        let f = &self.frames[frame - 1].lemmas;
        let ghost fc = frame_cubes(self@[frame - 1]);
        let mut j: usize = 0;
        while j < f.len()
            invariant
                1 < frame,
                frame - 1 < self@.len(),
                f@ == self@[frame - 1],
                fc == frame_cubes(f@),
                0 <= j <= f@.len(),
                parents(fc.take(j as int), lemma@).len() == 0,
            decreases f@.len() - j,
        {
            if f[j].lemma.subsume(lemma) {
                proof {
                    assert(fc.take(j + 1).drop_last() =~= fc.take(j as int));
                    lemma_parents_prefix(fc, lemma@, j + 1);
                    assert(parents(fc.take(j + 1), lemma@)[0] == fc[j as int]);
                    law_first_parent(fc, lemma@);
                }
                return Some(f[j].lemma.clone());
            }
            proof {
                assert(fc.take(j + 1).drop_last() =~= fc.take(j as int));
            }
            j += 1;
        }
        proof {
            assert(fc.take(j as int) =~= fc);
            law_first_parent(fc, lemma@);
        }
        None
    }

    /// The lemmas of frame `frame - 1` that subsume `lemma`, in order; none
    /// for frame 1.
    pub fn _parent_lemmas(&self, lemma: &Lemma, frame: usize) -> (r: Vec<Lemma>)
        requires
            frame >= 1,
            frame == 1 || frame - 1 < self@.len(),
        ensures
            frame == 1 ==> r@.len() == 0,
            frame > 1 ==> lemma_views(r@) == parents(frame_cubes(self@[frame - 1]), lemma@),
    {
        let mut res: Vec<Lemma> = Vec::new();
        if frame == 1 {
            return res;
        }
        let f = &self.frames[frame - 1].lemmas;
        let ghost fc = frame_cubes(self@[frame - 1]);
        let mut j: usize = 0;
        while j < f.len()
            invariant
                1 < frame,
                frame - 1 < self@.len(),
                f@ == self@[frame - 1],
                fc == frame_cubes(f@),
                0 <= j <= f@.len(),
                lemma_views(res@) == parents(fc.take(j as int), lemma@),
            decreases f@.len() - j,
        {
            proof {
                assert(fc.take(j + 1).drop_last() =~= fc.take(j as int));
            }
            if f[j].lemma.subsume(lemma) {
                let c = f[j].lemma.clone();
                res.push(c);
                proof {
                    assert(lemma_views(res@) =~= parents(fc.take(j as int), lemma@).push(fc[j as int]));
                }
            }
            j += 1;
        }
        proof {
            assert(fc.take(j as int) =~= fc);
        }
        res
    }

    /// The parts of the lemmas of frame `frame` and above that lie in `cube`
    /// and keep at least half of it without being all of it: the longest of
    /// them, at most three, each once, longest first. Of equally long parts,
    /// the one the walk of a hash set meets last comes first; that walk
    /// order is not stated.
    pub fn similar(&self, cube: &[Lit], frame: usize) -> (r: Vec<LitVec>)
        requires
            frame <= self@.len(),
        ensures
            r@.len() <= 3,
            forall|i: int|
                0 <= i < r@.len() ==> similar_candidate(self@, frame as int, cube@, #[trigger] r@[i]@),
            forall|i: int, j: int| 0 <= i < j < r@.len() ==> (#[trigger] r@[i])@ != (#[trigger] r@[j])@,
            forall|i: int, j: int|
                0 <= i < j < r@.len() ==> (#[trigger] r@[i])@.len() >= (#[trigger] r@[j])@.len(),
            forall|c: Seq<Lit>|
                #[trigger] similar_candidate(self@, frame as int, cube@, c) ==> (exists|i: int|
                    0 <= i < r@.len() && (#[trigger] r@[i])@ == c) || (r@.len() == 3 && c.len()
                    <= r@[2]@.len()),
    {
        let mut codes: Vec<u32> = Vec::new();
        let mut k: usize = 0;
        while k < cube.len()
            invariant
                0 <= k <= cube@.len(),
                codes@ == codes_of(cube@.take(k as int)),
            decreases cube@.len() - k,
        {
            codes.push(cube[k].0);
            proof {
                assert(codes@ =~= codes_of(cube@.take(k + 1)));
            }
            k += 1;
        }
        proof {
            assert(cube@.take(k as int) =~= cube@);
        }
        let cube_set = code_set_from(&codes);
        proof {
            assert forall|c: u32| #[trigger] code_set_view(cube_set).contains(c) <==> cube@.contains(Lit(c)) by {
                if codes@.contains(c) {
                    let q = choose|q: int| 0 <= q < codes@.len() && codes@[q] == c;
                    assert(cube@[q] == Lit(c));
                }
                if cube@.contains(Lit(c)) {
                    let q = choose|q: int| 0 <= q < cube@.len() && cube@[q] == Lit(c);
                    assert(codes@[q] == c);
                }
            }
        }
        let ghost fs = self@;
        let n = cube.len();
        let mut res = cube_set_new();
        let len = self.frames.len();
        let mut i: usize = frame;
        while i < len
            invariant
                len == fs.len(),
                fs == self@,
                n == cube@.len(),
                frame <= i <= len,
                forall|c: u32| #[trigger] code_set_view(cube_set).contains(c) <==> cube@.contains(Lit(c)),
                forall|x: Seq<u32>|
                    #[trigger] cube_set_view(res).contains(x) <==> exists|i2: int, j2: int|
                        frame <= i2 < i && 0 <= j2 < fs[i2].len() && x == codes_of(
                            restrict((#[trigger] fs[i2][j2])@, cube@),
                        ) && x.len() != n && 2 * x.len() >= n,
            decreases len - i,
        {
            let f = &self.frames[i].lemmas;
            let m = f.len();
            let mut j: usize = 0;
            while j < m
                invariant
                    len == fs.len(),
                    fs == self@,
                    n == cube@.len(),
                    frame <= i < len,
                    f@ == fs[i as int],
                    m == f@.len(),
                    0 <= j <= m,
                    forall|c: u32|
                        #[trigger] code_set_view(cube_set).contains(c) <==> cube@.contains(Lit(c)),
                    forall|x: Seq<u32>|
                        #[trigger] cube_set_view(res).contains(x) <==> exists|i2: int, j2: int|
                            frame <= i2 && (i2 < i || (i2 == i && j2 < j)) && 0 <= j2 < fs[i2].len()
                                && x == codes_of(restrict((#[trigger] fs[i2][j2])@, cube@)) && x.len()
                                != n && 2 * x.len() >= n,
                decreases m - j,
            {
                let sec = restrict_codes(&f[j].lemma, cube, &cube_set);
                let s_len = sec.len();
                let ghost before = cube_set_view(res);
                let ghost sv = sec@;
                if s_len != n && (s_len >= n || s_len >= n - s_len) {
                    cube_set_insert(&mut res, sec);
                }
                proof {
                    assert forall|x: Seq<u32>|
                        #[trigger] cube_set_view(res).contains(x) <==> exists|i2: int, j2: int|
                            frame <= i2 && (i2 < i || (i2 == i && j2 < j + 1)) && 0 <= j2 < fs[i2].len()
                                && x == codes_of(restrict((#[trigger] fs[i2][j2])@, cube@)) && x.len()
                                != n && 2 * x.len() >= n by {
                        if x == sv && sv.len() != n && 2 * sv.len() >= n {
                            assert(fs[i as int][j as int] == f@[j as int]);
                        }
                    }
                }
                j += 1;
            }
            i += 1;
        }
        let cands = cube_set_into_vec(res);
        let nc = cands.len();
        let mut chosen: Vec<bool> = Vec::new();
        let mut q: usize = 0;
        while q < nc
            invariant
                nc == cands@.len(),
                0 <= q <= nc,
                chosen@.len() == q,
                forall|t: int| 0 <= t < q ==> !chosen@[t],
            decreases nc - q,
        {
            chosen.push(false);
            q += 1;
        }
        let mut out: Vec<LitVec> = Vec::new();
        let ghost mut picked: Seq<int> = Seq::empty();
        let mut done = false;
        while out.len() < 3 && !done
            invariant
                nc == cands@.len(),
                chosen@.len() == nc,
                out@.len() == picked.len(),
                out@.len() <= 3,
                forall|t: int| 0 <= t < picked.len() ==> 0 <= #[trigger] picked[t] < nc,
                forall|t: int|
                    0 <= t < picked.len() ==> (#[trigger] out@[t])@ == lits_of(cands@[picked[t]]@),
                forall|m: int| 0 <= m < nc ==> (#[trigger] chosen@[m] <==> picked.contains(m)),
                forall|t: int, u: int| 0 <= t < u < picked.len() ==> picked[t] != picked[u],
                forall|t: int, u: int|
                    0 <= t < u < picked.len() ==> cands@[picked[t]]@.len() >= cands@[picked[u]]@.len(),
                forall|m: int|
                    0 <= m < nc && !(#[trigger] chosen@[m]) && picked.len() > 0 ==> cands@[m]@.len()
                        <= cands@[picked.last()]@.len(),
                done ==> forall|m: int| 0 <= m < nc ==> #[trigger] chosen@[m],
            decreases 3 - out@.len() + if done {
                0int
            } else {
                1int
            },
        {
            let mut best: usize = nc;
            let mut m: usize = 0;
            while m < nc
                invariant
                    nc == cands@.len(),
                    chosen@.len() == nc,
                    0 <= m <= nc,
                    best == nc || (best < m && !chosen@[best as int]),
                    best == nc ==> forall|t: int| 0 <= t < m ==> #[trigger] chosen@[t],
                    best < nc ==> forall|t: int|
                        0 <= t < m && !(#[trigger] chosen@[t]) ==> cands@[t]@.len()
                            <= cands@[best as int]@.len(),
                decreases nc - m,
            {
                if !chosen[m] && (best == nc || cands[m].len() >= cands[best].len()) {
                    best = m;
                }
                m += 1;
            }
            if best == nc {
                done = true;
            } else {
                let ghost pre_chosen = chosen@;
                chosen.set(best, true);
                out.push(to_lits(&cands[best]));
                proof {
                    assert(!pre_chosen[best as int]);
                    assert(!picked.contains(best as int));
                    if picked.len() > 0 {
                        assert(cands@[best as int]@.len() <= cands@[picked.last()]@.len());
                    }
                    let old_picked = picked;
                    picked = picked.push(best as int);
                    assert forall|mm: int| 0 <= mm < nc implies (#[trigger] chosen@[mm] <==> picked.contains(mm)) by {
                        if mm == best {
                            assert(picked[picked.len() - 1] == mm);
                        } else {
                            assert(chosen@[mm] == pre_chosen[mm]);
                            if pre_chosen[mm] {
                                assert(old_picked.contains(mm));
                                let t = choose|t: int| 0 <= t < old_picked.len() && old_picked[t] == mm;
                                assert(picked[t] == mm);
                            }
                            if picked.contains(mm) {
                                let t = choose|t: int| 0 <= t < picked.len() && picked[t] == mm;
                                assert(t < old_picked.len());
                                assert(old_picked[t] == mm);
                                assert(old_picked.contains(mm));
                            }
                        }
                    }
                }
            }
        }
        proof {
            assert forall|c: Seq<Lit>|
                #[trigger] similar_candidate(self@, frame as int, cube@, c) implies (exists|t: int|
                    0 <= t < out@.len() && (#[trigger] out@[t])@ == c) || (out@.len() == 3 && c.len()
                    <= out@[2]@.len()) by {
                let (i2, j2) = choose|i2: int, j2: int|
                    frame <= i2 < fs.len() && 0 <= j2 < fs[i2].len() && c == restrict(
                        (#[trigger] fs[i2][j2])@,
                        cube@,
                    );
                let x = codes_of(c);
                assert(lits_of(x) =~= c);
                assert(cube_set_view(res).contains(x));
                let mm = choose|mm: int| 0 <= mm < cands@.len() && (#[trigger] cands@[mm])@ == x;
                if chosen@[mm] {
                    let t = choose|t: int| 0 <= t < picked.len() && picked[t] == mm;
                    assert(out@[t]@ == c);
                } else {
                    assert(out@.len() == 3);
                    assert(picked.last() == picked[2]);
                }
            }
            assert forall|t: int|
                0 <= t < out@.len() implies similar_candidate(self@, frame as int, cube@, #[trigger] out@[t]@) by {
                let x = cands@[picked[t]]@;
                assert(cube_set_view(res).contains(x));
                let (i2, j2) = choose|i2: int, j2: int|
                    frame <= i2 < fs.len() && 0 <= j2 < fs[i2].len() && x == codes_of(
                        restrict((#[trigger] fs[i2][j2])@, cube@),
                    ) && x.len() != n && 2 * x.len() >= n;
                let c = restrict(fs[i2][j2]@, cube@);
                assert(lits_of(codes_of(c)) =~= c);
            }
            assert forall|t: int, u: int| 0 <= t < u < out@.len() implies (#[trigger] out@[t])@ != (#[trigger] out@[u])@ by {
                if out@[t]@ == out@[u]@ {
                    assert(codes_of(lits_of(cands@[picked[t]]@)) =~= cands@[picked[t]]@);
                    assert(codes_of(lits_of(cands@[picked[u]]@)) =~= cands@[picked[u]]@);
                }
            }
        }
        out
    }

    /// The proof obligation of lemma `j` of frame `i`, to change it; the
    /// position is one that `trivial_contained` gives.
    pub fn po_mut(&mut self, i: usize, j: usize) -> (r: &mut Option<P>)
        requires
            i < old(self)@.len(),
            j < old(self)@[i as int].len(),
        ensures
            *r == old(self)@[i as int][j as int].po_val(),
            final(self)@ == old(self)@.update(
                i as int,
                old(self)@[i as int].update(j as int, old(self)@[i as int][j as int].with_po(*final(r))),
            ),
            final(self).early_val() == old(self).early_val(),
            final(self).scratch() == old(self).scratch(),
    {
        &mut self.frames[i].lemmas[j].po
    }

    /// The number of frames.
    pub fn len(&self) -> (r: usize)
        ensures
            r == self@.len(),
    {
        self.frames.len()
    }

    /// The frames.
    pub fn frames(&self) -> (r: &Vec<Frame<P>>)
        ensures
            r@.map_values(|f: Frame<P>| f@) == self@,
    {
        &self.frames
    }

    /// The frames, to change them.
    pub fn get_mut(&mut self) -> (r: &mut Vec<Frame<P>>)
        ensures
            r@.map_values(|f: Frame<P>| f@) == old(self)@,
            final(self)@ == final(r)@.map_values(|f: Frame<P>| f@),
            final(self).early_val() == old(self).early_val(),
            final(self).scratch() == old(self).scratch(),
    {
        &mut self.frames
    }

    /// Reports statistics of the frames; there are none to report.
    pub fn statistic(&self) {
    }
}

} // verus!
