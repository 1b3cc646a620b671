use giputils::hash::GHashSet;
use vstd::prelude::*;

verus! {

/// A set of literal codes, kept in a hash set of `giputils`.
#[verifier::external_body]
pub struct CodeSet {
    set: GHashSet<u32>,
}

/// A set of cubes, each given by its literal codes, kept in a hash set of
/// `giputils`.
#[verifier::external_body]
pub struct CubeSet {
    set: GHashSet<Vec<u32>>,
}

/// What a hash set of literal codes holds.
pub uninterp spec fn code_set_view(s: CodeSet) -> Set<u32>;

/// What a hash set of cubes holds.
pub uninterp spec fn cube_set_view(s: CubeSet) -> Set<Seq<u32>>;

/// Calls `GHashSet::from_iter` on the codes: the set holds exactly the
/// codes of the sequence (std's hash set of `u32`, behind a `Deref`).
#[verifier::external_body]
pub(crate) fn code_set_from(codes: &Vec<u32>) -> (r: CodeSet)
    ensures
        forall|c: u32| #[trigger] code_set_view(r).contains(c) <==> codes@.contains(c),
{
    CodeSet { set: GHashSet::from_iter(codes.iter().copied()) }
}

/// Calls `contains` on the set (std's `HashSet::contains`, behind a
/// `Deref`): whether the set holds `c`.
#[verifier::external_body]
pub(crate) fn code_set_contains(s: &CodeSet, c: u32) -> (r: bool)
    ensures
        r == code_set_view(*s).contains(c),
{
    s.set.contains(&c)
}

/// Calls `GHashSet::new`: an empty set.
#[verifier::external_body]
pub(crate) fn cube_set_new() -> (r: CubeSet)
    ensures
        cube_set_view(r) == Set::<Seq<u32>>::empty(),
{
    CubeSet { set: GHashSet::new() }
}

/// Calls `insert` on the set (std's `HashSet::insert`, behind a
/// `DerefMut`): the set gains `v`, equal vectors counting once.
#[verifier::external_body]
pub(crate) fn cube_set_insert(s: &mut CubeSet, v: Vec<u32>)
    ensures
        cube_set_view(*final(s)) == cube_set_view(*old(s)).insert(v@),
{
    s.set.insert(v);
}

/// Calls `Vec::from_iter` on the set, which walks it in the order of its
/// hash table: each element comes out once. That order is not stated.
#[verifier::external_body]
pub(crate) fn cube_set_into_vec(s: CubeSet) -> (r: Vec<Vec<u32>>)
    ensures
        forall|i: int| 0 <= i < r@.len() ==> cube_set_view(s).contains(#[trigger] r@[i]@),
        forall|x: Seq<u32>|
            #[trigger] cube_set_view(s).contains(x) ==> exists|i: int|
                0 <= i < r@.len() && (#[trigger] r@[i])@ == x,
        forall|i: int, j: int| 0 <= i < j < r@.len() ==> (#[trigger] r@[i])@ != (#[trigger] r@[j])@,
{
    Vec::from_iter(s.set)
}

} // verus!
