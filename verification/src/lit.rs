use vstd::prelude::*;

verus! {

/// A propositional variable, named by its index.
#[derive(Clone, Copy, PartialEq, Eq, Structural, Debug, Hash)]
pub struct Var(pub u32);

/// A literal: a variable with a polarity. Its code is twice the variable,
/// plus one when the literal is negative.
#[derive(Clone, Copy, PartialEq, Eq, Structural, Debug, Hash)]
pub struct Lit(pub u32);

/// A sequence of literals (a cube or a clause).
pub type LitVec = Vec<Lit>;

/// The code of a literal with the given variable and polarity.
pub open spec fn lit_code(var: u32, polarity: bool) -> int {
    2 * var + if polarity { 0int } else { 1int }
}

/// The code of the negation of the literal with code `c`.
pub open spec fn negated_code(c: u32) -> int {
    if c % 2 == 0 { c + 1 } else { c - 1 }
}

impl Lit {
    /// The literal of `var` with the given polarity (`true` is positive).
    pub fn new(var: Var, polarity: bool) -> (r: Lit)
        requires
            var.0 <= 0x7fff_ffff,
        ensures
            r.0 == lit_code(var.0, polarity),
    {
        if polarity {
            Lit(var.0 + var.0)
        } else {
            Lit(var.0 + var.0 + 1)
        }
    }

    /// The variable of the literal.
    pub fn var(&self) -> (r: Var)
        ensures
            r.0 == self.0 / 2,
    {
        Var(self.0 / 2)
    }

    /// Whether the literal is positive.
    pub fn polarity(&self) -> (r: bool)
        ensures
            r == (self.0 % 2 == 0),
    {
        self.0 % 2 == 0
    }

    /// The literal of the same variable with the other polarity.
    pub fn not(&self) -> (r: Lit)
        ensures
            r.0 == negated_code(self.0),
    {
        if self.0 % 2 == 0 {
            Lit(self.0 + 1)
        } else {
            Lit(self.0 - 1)
        }
    }
}

/// Literals in non-decreasing order of their codes.
pub open spec fn lits_sorted(s: Seq<Lit>) -> bool {
    forall|i: int, j: int| 0 <= i <= j < s.len() ==> s[i].0 <= s[j].0
}

/// The order of literals by code.
pub open spec fn code_le(a: Lit, b: Lit) -> bool {
    a.0 <= b.0
}

/// The literals of a cube, sorted by code: the lemma of the cube.
pub open spec fn lemma_of(c: Seq<Lit>) -> Seq<Lit> {
    c.sort_by(|a: Lit, b: Lit| code_le(a, b))
}

/// `lemma_of(c)` is sorted and holds the literals of `c`, and it is the only
/// sorted sequence that does.
pub proof fn lemma_lemma_of(c: Seq<Lit>, l: Seq<Lit>)
    ensures
        lits_sorted(lemma_of(c)),
        lemma_of(c).to_multiset() == c.to_multiset(),
        lits_sorted(l) && l.to_multiset() == c.to_multiset() ==> l == lemma_of(c),
{
    let leq = |a: Lit, b: Lit| code_le(a, b);
    assert(vstd::relations::total_ordering(leq)) by {
        assert forall|a: Lit, b: Lit| #[trigger] leq(a, b) && #[trigger] leq(b, a) implies a == b by {
            assert(a.0 == b.0);
        }
    }
    c.lemma_sort_by_ensures(leq);
    let s = lemma_of(c);
    assert(lits_sorted(s)) by {
        assert forall|i: int, j: int| 0 <= i <= j < s.len() implies s[i].0 <= s[j].0 by {
            if i < j {
                assert(leq(s[i], s[j]));
            }
        }
    }
    if lits_sorted(l) && l.to_multiset() == c.to_multiset() {
        assert(vstd::relations::sorted_by(l, leq)) by {
            assert forall|i: int, j: int| 0 <= i < j < l.len() implies #[trigger] leq(l[i], l[j]) by {
            }
        }
        vstd::seq_lib::lemma_sorted_unique(l, s, leq);
    }
}

/// The lemma of a sorted cube is the cube itself: making a lemma of a
/// lemma's literals gives the same lemma.
pub proof fn law_lemma_of_sorted(l: Seq<Lit>)
    requires
        lits_sorted(l),
    ensures
        lemma_of(l) == l,
{
    lemma_lemma_of(l, l);
}

/// `a` subsumes `b`: it is no longer, and every literal of `a` occurs in `b`.
pub open spec fn subsumes(a: Seq<Lit>, b: Seq<Lit>) -> bool {
    &&& a.len() <= b.len()
    &&& forall|i: int| 0 <= i < a.len() ==> b.contains(#[trigger] a[i])
}

/// The lexicographic order of literal sequences by code, a proper prefix
/// coming first.
pub open spec fn lex_le(a: Seq<Lit>, b: Seq<Lit>) -> bool
    decreases a.len(),
{
    if a.len() == 0 {
        true
    } else if b.len() == 0 {
        false
    } else if a[0].0 < b[0].0 {
        true
    } else if a[0].0 > b[0].0 {
        false
    } else {
        lex_le(a.drop_first(), b.drop_first())
    }
}

/// `lex_le` is total.
pub proof fn lemma_lex_total(a: Seq<Lit>, b: Seq<Lit>)
    ensures
        lex_le(a, b) || lex_le(b, a),
    decreases a.len(),
{
    if a.len() > 0 && b.len() > 0 && a[0].0 == b[0].0 {
        lemma_lex_total(a.drop_first(), b.drop_first());
    }
}

/// `lex_le` is transitive.
pub proof fn lemma_lex_transitive(a: Seq<Lit>, b: Seq<Lit>, c: Seq<Lit>)
    requires
        lex_le(a, b),
        lex_le(b, c),
    ensures
        lex_le(a, c),
    decreases a.len(),
{
    if a.len() > 0 && b.len() > 0 && c.len() > 0 && a[0].0 == b[0].0 && b[0].0 == c[0].0 {
        lemma_lex_transitive(a.drop_first(), b.drop_first(), c.drop_first());
    }
}

/// `lex_le` is antisymmetric.
pub proof fn lemma_lex_antisymmetric(a: Seq<Lit>, b: Seq<Lit>)
    requires
        lex_le(a, b),
        lex_le(b, a),
    ensures
        a == b,
    decreases a.len(),
{
    if a.len() > 0 && b.len() > 0 {
        lemma_lex_antisymmetric(a.drop_first(), b.drop_first());
        assert(a =~= seq![a[0]] + a.drop_first());
        assert(b =~= seq![b[0]] + b.drop_first());
    }
}

/// Comparing from a common prefix on decides `lex_le` as comparing the
/// whole sequences does.
pub proof fn lemma_lex_skip(a: Seq<Lit>, b: Seq<Lit>, i: int)
    requires
        0 <= i <= a.len(),
        i <= b.len(),
        forall|k: int| 0 <= k < i ==> a[k].0 == b[k].0,
    ensures
        lex_le(a, b) == lex_le(a.skip(i), b.skip(i)),
    decreases i,
{
    if i > 0 {
        lemma_lex_skip(a.drop_first(), b.drop_first(), i - 1);
        assert(a.drop_first().skip(i - 1) =~= a.skip(i));
        assert(b.drop_first().skip(i - 1) =~= b.skip(i));
    } else {
        assert(a.skip(0) =~= a);
        assert(b.skip(0) =~= b);
    }
}

/// Sorts literals by code, keeping each one.
#[verifier::external_body]
fn sort_lits(v: &mut Vec<Lit>)
    ensures
        lits_sorted(final(v)@),
        final(v)@.to_multiset() == old(v)@.to_multiset(),
{
    v.sort_by_key(|l| l.0);
}

/// A lemma: a cube whose literals are kept sorted by code.
pub struct Lemma {
    cube: Vec<Lit>,
}

impl View for Lemma {
    type V = Seq<Lit>;

    closed spec fn view(&self) -> Seq<Lit> {
        self.cube@
    }
}

impl Lemma {
    #[verifier::type_invariant]
    spec fn sorted_cube(self) -> bool {
        lits_sorted(self.cube@)
    }

    /// The lemma of a cube: its literals, sorted.
    pub fn new(cube: LitVec) -> (r: Lemma)
        ensures
            r@ == lemma_of(cube@),
            lits_sorted(r@),
    {
        let ghost c = cube@;
        let mut cube = cube;
        sort_lits(&mut cube);
        proof {
            lemma_lemma_of(c, cube@);
        }
        Lemma { cube }
    }

    /// The literals of the lemma, in order.
    pub fn cube(&self) -> (r: &LitVec)
        ensures
            r@ == self@,
    {
        &self.cube
    }

    /// The number of literals.
    pub fn len(&self) -> (r: usize)
        ensures
            r == self@.len(),
    {
        self.cube.len()
    }

    /// The literals of a lemma are sorted.
    pub fn is_sorted(&self) -> (r: bool)
        ensures
            r,
            lits_sorted(self@),
    {
        proof {
            use_type_invariant(self);
        }
        true
    }

    /// Whether this lemma comes before `other`, or equals it, in the order
    /// of lemmas: by their literals' codes from the first on, a proper prefix
    /// first.
    pub fn le(&self, other: &Lemma) -> (r: bool)
        ensures
            r == lex_le(self@, other@),
    {
        let a = &self.cube;
        let b = &other.cube;
        let n = if a.len() < b.len() {
            a.len()
        } else {
            b.len()
        };
        let mut i: usize = 0;
        while i < n
            invariant
                a@ == self@,
                b@ == other@,
                n <= a@.len(),
                n <= b@.len(),
                n == a@.len() || n == b@.len(),
                0 <= i <= n,
                forall|k: int| 0 <= k < i ==> a@[k].0 == b@[k].0,
            decreases n - i,
        {
            if a[i].0 < b[i].0 {
                proof {
                    lemma_lex_skip(a@, b@, i as int);
                }
                return true;
            }
            if a[i].0 > b[i].0 {
                proof {
                    lemma_lex_skip(a@, b@, i as int);
                }
                return false;
            }
            i += 1;
        }
        proof {
            lemma_lex_skip(a@, b@, n as int);
        }
        a.len() <= b.len()
    }

    /// Two lemmas are equal when they hold the same literals in the same order.
    pub fn eq(&self, other: &Lemma) -> (r: bool)
        ensures
            r == (self@ == other@),
    {
        if self.cube.len() != other.cube.len() {
            return false;
        }
        let n = self.cube.len();
        let mut i: usize = 0;
        while i < n
            invariant
                n == self@.len() == other@.len(),
                0 <= i <= n,
                forall|k: int| 0 <= k < i ==> self@[k] == other@[k],
            decreases n - i,
        {
            if self.cube[i] != other.cube[i] {
                return false;
            }
            i += 1;
        }
        assert(self@ =~= other@);
        true
    }

    /// A copy of the lemma.
    pub fn clone(&self) -> (r: Lemma)
        ensures
            r@ == self@,
    {
        proof {
            use_type_invariant(self);
        }
        let mut cube: Vec<Lit> = Vec::new();
        let mut i: usize = 0;
        while i < self.cube.len()
            invariant
                0 <= i <= self@.len(),
                cube@ =~= self@.subrange(0, i as int),
            decreases self@.len() - i,
        {
            cube.push(self.cube[i]);
            i += 1;
        }
        assert(cube@ =~= self@);
        Lemma { cube }
    }

    /// Whether this lemma subsumes `other`, given the set of the literals of
    /// `other`.
    pub fn subsume_set(&self, other: &Lemma, other_lits: &LitSet) -> (r: bool)
        requires
            forall|k: int| 0 <= k < self@.len() ==> ((#[trigger] self@[k]).0 as nat) < other_lits.cap(),
            forall|l: Lit| #[trigger] other_lits@.contains(l) <==> other@.contains(l),
        ensures
            r == subsumes(self@, other@),
    {
        if self.cube.len() > other.cube.len() {
            return false;
        }
        let n = self.cube.len();
        let mut i: usize = 0;
        while i < n
            invariant
                n == self@.len(),
                self.cube@ == self@,
                0 <= i <= n,
                forall|k: int| 0 <= k < i ==> other@.contains(#[trigger] self@[k]),
                forall|k: int| 0 <= k < self@.len() ==> ((#[trigger] self@[k]).0 as nat) < other_lits.cap(),
                forall|l: Lit| #[trigger] other_lits@.contains(l) <==> other@.contains(l),
            decreases n - i,
        {
            if !other_lits.has(self.cube[i]) {
                return false;
            }
            i += 1;
        }
        true
    }

    /// Whether this lemma subsumes `other`: it is no longer, and each of its
    /// literals occurs in `other`. Both lemmas are sorted, so one ordered
    /// scan decides it.
    pub fn subsume(&self, other: &Lemma) -> (r: bool)
        ensures
            r == subsumes(self@, other@),
    {
        proof {
            use_type_invariant(self);
            use_type_invariant(other);
        }
        let a = &self.cube;
        let b = &other.cube;
        if a.len() > b.len() {
            return false;
        }
        let n = a.len();
        let m = b.len();
        let mut j: usize = 0;
        let mut i: usize = 0;
        while i < n
            invariant
                n == a@.len(),
                m == b@.len(),
                a@ == self@,
                b@ == other@,
                lits_sorted(a@),
                lits_sorted(b@),
                0 <= i <= n,
                0 <= j <= m,
                forall|k: int| 0 <= k < i ==> b@.contains(#[trigger] a@[k]),
                i < n ==> forall|k: int| 0 <= k < j ==> b@[k].0 < a@[i as int].0,
            decreases n - i,
        {
            while j < m && a[i].0 > b[j].0
                invariant
                    n == a@.len(),
                    m == b@.len(),
                    0 <= i < n,
                    0 <= j <= m,
                    forall|k: int| 0 <= k < j ==> b@[k].0 < a@[i as int].0,
                decreases m - j,
            {
                j += 1;
            }
            if j == m || a[i] != b[j] {
                assert forall|k: int| 0 <= k < m implies b@[k] != a@[i as int] by {
                    if k >= j {
                        assert(b@[k].0 >= b@[j as int].0);
                    }
                }
                assert(!b@.contains(a@[i as int]));
                return false;
            }
            assert(b@[j as int] == a@[i as int]);
            assert(b@.contains(a@[i as int]));
            i += 1;
            if i < n {
                assert forall|k: int| 0 <= k < j implies b@[k].0 < a@[i as int].0 by {
                    assert(a@[i - 1].0 <= a@[i as int].0);
                }
            }
        }
        true
    }
}

/// A set of literals with a fixed range of codes, which it can list and
/// empty again in time proportional to its size.
pub struct LitSet {
    set: Vec<Lit>,
    has: Vec<bool>,
}

impl View for LitSet {
    type V = Set<Lit>;

    closed spec fn view(&self) -> Set<Lit> {
        Set::new(|l: Lit| (l.0 as int) < self.has@.len() && self.has@[l.0 as int])
    }
}

impl LitSet {
    /// The number of codes the set can hold: codes below it.
    pub closed spec fn cap(&self) -> nat {
        self.has@.len()
    }

    /// The listed literals and the membership table agree.
    pub closed spec fn wf(&self) -> bool {
        &&& forall|i: int|
            0 <= i < self.set@.len() ==> (#[trigger] self.set@[i]).0 < self.has@.len()
                && self.has@[self.set@[i].0 as int]
        &&& forall|c: int|
            0 <= c < self.has@.len() && #[trigger] self.has@[c] ==> exists|i: int|
                0 <= i < self.set@.len() && self.set@[i].0 == c
        &&& forall|i: int, j: int|
            0 <= i < j < self.set@.len() ==> self.set@[i] != self.set@[j]
    }

    /// An empty set that holds no codes yet.
    pub fn new() -> (r: LitSet)
        ensures
            r.wf(),
            r@ == Set::<Lit>::empty(),
            r.cap() == 0,
    {
        let r = LitSet { set: Vec::new(), has: Vec::new() };
        assert(r@ =~= Set::<Lit>::empty());
        r
    }

    /// An empty set that holds the literals of variables up to `var`.
    pub fn new_with(var: Var) -> (r: LitSet)
        ensures
            r.wf(),
            r@ == Set::<Lit>::empty(),
            r.cap() == 2 * (var.0 + 1),
    {
        let mut r = LitSet::new();
        r.reserve(var);
        r
    }

    /// Makes room for the literals of variables up to `var`.
    pub fn reserve(&mut self, var: Var)
        requires
            old(self).wf(),
        ensures
            final(self).wf(),
            final(self)@ == old(self)@,
            final(self).cap() == if old(self).cap() < 2 * (var.0 + 1) {
                2 * (var.0 + 1)
            } else {
                old(self).cap() as int
            },
    {
        let len: u64 = (var.0 as u64 + 1) * 2;
        let ghost old_has = self.has@;
        if (self.has.len() as u64) < len {
            while (self.has.len() as u64) < len
                invariant
                    self.has@.len() <= len,
                    self.has@.subrange(0, old_has.len() as int) == old_has,
                    forall|c: int| old_has.len() <= c < self.has@.len() ==> !self.has@[c],
                    old_has.len() <= self.has@.len(),
                    old_has == old(self).has@,
                    self.set@ == old(self).set@,
                decreases len - self.has@.len(),
            {
                self.has.push(false);
            }
            assert forall|c: int| 0 <= c < old_has.len() implies self.has@[c] == old_has[c] by {
                assert(self.has@.subrange(0, old_has.len() as int)[c] == self.has@[c]);
            }
            assert forall|c: int|
                0 <= c < self.has@.len() && #[trigger] self.has@[c] implies exists|i: int|
                0 <= i < self.set@.len() && self.set@[i].0 == c by {
                assert(c < old_has.len());
                assert(old(self).has@[c]);
            }
        }
        assert(self@ =~= old(self)@);
    }

    /// Adds a literal.
    pub fn insert(&mut self, lit: Lit)
        requires
            old(self).wf(),
            (lit.0 as nat) < old(self).cap(),
        ensures
            final(self).wf(),
            final(self)@ == old(self)@.insert(lit),
            final(self).cap() == old(self).cap(),
    {
        let c = lit.0 as usize;
        if !self.has[c] {
            let ghost old_set = self.set@;
            self.set.push(lit);
            self.has.set(c, true);
            assert forall|d: int|
                0 <= d < self.has@.len() && #[trigger] self.has@[d] implies exists|i: int|
                0 <= i < self.set@.len() && self.set@[i].0 == d by {
                if d == c {
                    assert(self.set@[old_set.len() as int].0 == d);
                } else {
                    let i = choose|i: int| 0 <= i < old_set.len() && old_set[i].0 == d;
                    assert(self.set@[i].0 == d);
                }
            }
        }
        assert(self@ =~= old(self)@.insert(lit));
    }

    /// Whether the set holds `lit`.
    pub fn has(&self, lit: Lit) -> (r: bool)
        requires
            (lit.0 as nat) < self.cap(),
        ensures
            r == self@.contains(lit),
    {
        self.has[lit.0 as usize]
    }

    /// Empties the set, keeping its range.
    pub fn clear(&mut self)
        requires
            old(self).wf(),
        ensures
            final(self).wf(),
            final(self)@ == Set::<Lit>::empty(),
            final(self).cap() == old(self).cap(),
    {
        let n = self.set.len();
        let mut i: usize = 0;
        while i < n
            invariant
                n == self.set@.len(),
                self.set@ == old(self).set@,
                self.has@.len() == old(self).has@.len(),
                old(self).wf(),
                0 <= i <= n,
                forall|c: int|
                    0 <= c < self.has@.len() && #[trigger] self.has@[c] ==> exists|k: int|
                        i <= k < n && self.set@[k].0 == c,
                forall|k: int| i <= k < n ==> self.has@[(#[trigger] self.set@[k]).0 as int],
            decreases n - i,
        {
            let c = self.set[i].0 as usize;
            self.has.set(c, false);
            assert forall|d: int|
                0 <= d < self.has@.len() && #[trigger] self.has@[d] implies exists|k: int|
                i + 1 <= k < n && self.set@[k].0 == d by {
                let k = choose|k: int| i <= k < n && self.set@[k].0 == d && old(self).has@[d] == old(self).has@[d];
                if k == i {
                    assert(d == c);
                }
            }
            assert forall|k: int| i + 1 <= k < n implies self.has@[(#[trigger] self.set@[k]).0 as int] by {
                assert(self.set@[k] != self.set@[i as int]);
            }
            i += 1;
        }
        self.set.clear();
        assert(self@ =~= Set::<Lit>::empty()) by {
            assert forall|l: Lit| !self@.contains(l) by {
                if (l.0 as int) < self.has@.len() && self.has@[l.0 as int] {
                    let k = choose|k: int| n <= k < n && old(self).set@[k].0 == l.0;
                }
            }
        }
    }
}

} // verus!
