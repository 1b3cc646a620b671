use crate::aig::AigEdge;
use vstd::prelude::*;

verus! {

/// Whether two strings hold the same characters.
pub fn str_equals(a: &str, b: &str) -> (r: bool)
    ensures
        r == (a@ == b@),
{
    let n = a.unicode_len();
    if n != b.unicode_len() {
        return false;
    }
    let mut i: usize = 0;
    while i < n
        invariant
            n == a@.len() == b@.len(),
            0 <= i <= n,
            forall|k: int| 0 <= k < i ==> a@[k] == b@[k],
        decreases n - i,
    {
        if a.get_char(i) != b.get_char(i) {
            return false;
        }
        i += 1;
    }
    assert(a@ =~= b@);
    true
}

/// The formats a model file may be in.
#[derive(Clone, Copy, PartialEq, Eq, Structural, Debug)]
pub enum ModelFormat {
    /// AIGER, binary or ASCII: `.aig` or `.aag`.
    Aiger,
    /// BTOR2: `.btor` or `.btor2`, which is not read.
    Btor,
    /// Any other extension, or none.
    Unsupported,
}

/// The format of a model by the extension of its file name.
pub open spec fn format_of(ext: Option<Seq<char>>) -> ModelFormat {
    match ext {
        Some(e) => if e == "btor"@ || e == "btor2"@ {
            ModelFormat::Btor
        } else if e == "aig"@ || e == "aag"@ {
            ModelFormat::Aiger
        } else {
            ModelFormat::Unsupported
        },
        None => ModelFormat::Unsupported,
    }
}

/// The format of a model by the extension of its file name.
pub fn model_format(ext: Option<&str>) -> (r: ModelFormat)
    ensures
        r == format_of(
            match ext {
                Some(e) => Some(e@),
                None => None,
            },
        ),
{
    match ext {
        Some(e) => {
            if str_equals(e, "btor") || str_equals(e, "btor2") {
                ModelFormat::Btor
            } else if str_equals(e, "aig") || str_equals(e, "aag") {
                ModelFormat::Aiger
            } else {
                ModelFormat::Unsupported
            }
        },
        None => ModelFormat::Unsupported,
    }
}

/// How the outputs and bad-state properties of a model are to be checked.
#[derive(Clone, Copy, PartialEq, Eq, Structural, Debug)]
pub struct PropertyPlan {
    /// The model has no bad-state property: its outputs become them.
    pub move_outputs: bool,
    /// The outputs are ignored beside the bad-state properties.
    pub ignore_outputs: bool,
    /// No property is left: the model is safe.
    pub no_property: bool,
    /// Several properties are left: they are compressed into one, and the
    /// certificate is not checked.
    pub compress: bool,
}

/// The number of bad-state properties once outputs are moved to them.
pub open spec fn bads_after(n_outputs: nat, n_bads: nat, certify: bool) -> nat {
    if n_outputs > 0 && !certify && n_bads == 0 {
        n_outputs
    } else {
        n_bads
    }
}

/// How the properties of a model with `n_outputs` outputs and `n_bads`
/// bad-state properties are checked. Several properties cannot be
/// compressed when the certificate is to be checked.
pub fn property_plan(n_outputs: usize, n_bads: usize, certify: bool) -> (r: PropertyPlan)
    requires
        !(certify && n_bads > 1),
    ensures
        r.move_outputs == (n_outputs > 0 && !certify && n_bads == 0),
        r.ignore_outputs == (n_outputs > 0 && !certify && n_bads > 0),
        r.no_property == (bads_after(n_outputs as nat, n_bads as nat, certify) == 0),
        r.compress == (bads_after(n_outputs as nat, n_bads as nat, certify) > 1),
        !r.move_outputs ==> (r.no_property <==> n_bads == 0) && (r.compress <==> n_bads > 1),
        r.move_outputs ==> !r.no_property && (r.compress <==> n_outputs > 1),
{
    let move_outputs = n_outputs > 0 && !certify && n_bads == 0;
    let ignore_outputs = n_outputs > 0 && !certify && n_bads > 0;
    let bads = if move_outputs {
        n_outputs
    } else {
        n_bads
    };
    PropertyPlan { move_outputs, ignore_outputs, no_property: bads == 0, compress: bads > 1 }
}

/// What a plan says of the properties, by the counts alone: when the
/// outputs are not moved, the model is safe exactly when it has no
/// bad-state property, and its properties are compressed exactly when it
/// has several; when they are moved, there is a property, and they are
/// compressed exactly when there are several outputs.
pub proof fn law_property_plan(n_outputs: usize, n_bads: usize, certify: bool, r: PropertyPlan)
    requires
        r.move_outputs == (n_outputs > 0 && !certify && n_bads == 0),
        r.no_property == (bads_after(n_outputs as nat, n_bads as nat, certify) == 0),
        r.compress == (bads_after(n_outputs as nat, n_bads as nat, certify) > 1),
    ensures
        !r.move_outputs ==> (r.no_property <==> n_bads == 0) && (r.compress <==> n_bads > 1),
        r.move_outputs ==> !r.no_property && (r.compress <==> n_outputs > 1),
{
}

/// The line that reports a verdict.
pub open spec fn result_text(res: Option<bool>) -> Seq<char> {
    match res {
        Some(true) => "result: safe"@,
        Some(false) => "result: unsafe"@,
        None => "result: unknown"@,
    }
}

/// The line that reports a verdict.
pub fn result_message(res: Option<bool>) -> (r: &'static str)
    ensures
        r@ == result_text(res),
{
    match res {
        Some(true) => "result: safe",
        Some(false) => "result: unsafe",
        None => "result: unknown",
    }
}

/// The edge is the constant true.
pub open spec fn is_constant_true(e: AigEdge) -> bool {
    e.id == 0 && e.complement
}

/// The edges that are not the constant true, in order.
pub open spec fn nonconstant(s: Seq<AigEdge>) -> Seq<AigEdge>
    decreases s.len(),
{
    if s.len() == 0 {
        Seq::empty()
    } else if is_constant_true(s.last()) {
        nonconstant(s.drop_last())
    } else {
        nonconstant(s.drop_last()).push(s.last())
    }
}

/// Keeps the constraints that are not the constant true: those constrain
/// nothing.
pub fn keep_nonconstant(constraints: &Vec<AigEdge>) -> (r: Vec<AigEdge>)
    ensures
        r@ == nonconstant(constraints@),
        forall|e: AigEdge| #[trigger] r@.contains(e) <==> constraints@.contains(e) && !(e.id == 0
            && e.complement),
{
    let mut r: Vec<AigEdge> = Vec::new();
    let mut k: usize = 0;
    while k < constraints.len()
        invariant
            0 <= k <= constraints@.len(),
            r@ == nonconstant(constraints@.take(k as int)),
        decreases constraints@.len() - k,
    {
        proof {
            assert(constraints@.take(k + 1).drop_last() =~= constraints@.take(k as int));
        }
        let e = constraints[k];
        if !(e.id == 0 && e.complement) {
            r.push(e);
        }
        k += 1;
    }
    proof {
        assert(constraints@.take(k as int) =~= constraints@);
        law_keep_nonconstant(constraints@);
    }
    r
}

/// The constraints kept are exactly those that are not the constant true
/// (node 0, complemented), each as often as it occurs: no other edge is
/// dropped.
pub proof fn law_keep_nonconstant(s: Seq<AigEdge>)
    ensures
        forall|e: AigEdge| #[trigger] nonconstant(s).to_multiset().count(e) == if e.id == 0
            && e.complement {
            0
        } else {
            s.to_multiset().count(e)
        },
        forall|e: AigEdge| #[trigger] nonconstant(s).contains(e) <==> s.contains(e) && !(e.id == 0
            && e.complement),
    decreases s.len(),
{
    broadcast use vstd::seq_lib::group_to_multiset_ensures;
    broadcast use vstd::multiset::group_multiset_axioms;

    if s.len() == 0 {
        assert(s.to_multiset() =~= vstd::multiset::Multiset::<AigEdge>::empty());
        assert(nonconstant(s).to_multiset() =~= vstd::multiset::Multiset::<AigEdge>::empty());
    } else {
        let d = s.drop_last();
        let x = s.last();
        law_keep_nonconstant(d);
        assert(s == d.push(x));
        assert(s.to_multiset() == d.to_multiset().insert(x));
        if !(x.id == 0 && x.complement) {
            assert(nonconstant(s).to_multiset() == nonconstant(d).to_multiset().insert(x));
        }
    }
    assert forall|e: AigEdge| #[trigger] nonconstant(s).contains(e) <==> s.contains(e) && !(e.id
        == 0 && e.complement) by {
        assert(nonconstant(s).to_multiset().count(e) > 0 <==> nonconstant(s).contains(e));
        assert(s.to_multiset().count(e) > 0 <==> s.contains(e));
    }
}

} // verus!
