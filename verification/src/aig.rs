use crate::text::{decimal, push_char, push_chars, push_decimal, push_string};
use crate::lit::Lit;
use std::collections::HashMap;
use vstd::prelude::*;

verus! {

broadcast use vstd::std_specs::hash::group_hash_axioms;

/// An edge of an and-inverter graph: a node, possibly complemented.
#[derive(Clone, Copy, PartialEq, Eq, Structural, Debug)]
pub struct AigEdge {
    pub id: usize,
    pub complement: bool,
}

/// The kind of a node of an and-inverter graph.
#[derive(Clone, Copy, PartialEq, Eq, Structural, Debug)]
pub enum AigNodeType {
    /// The constant false.
    False,
    /// An input or a latch.
    Leaf,
    /// The conjunction of two edges.
    And(AigEdge, AigEdge),
}

/// What the rendering of lemmas reads of an and-inverter graph: its nodes
/// by index, its inputs and latches, and the names of nodes.
pub struct Aig {
    pub nodes: Vec<AigNodeType>,
    pub inputs: Vec<usize>,
    pub latchs: Vec<usize>,
    pub symbols: HashMap<usize, String>,
}

impl Aig {
    /// The name of node `idx`, if it has one.
    pub open spec fn symbol(&self, idx: int) -> Option<Seq<char>> {
        if self.symbols@.contains_key(idx as usize) && 0 <= idx <= usize::MAX {
            Some(self.symbols@[idx as usize]@)
        } else {
            None
        }
    }

    /// Node `idx` is an input or a latch: it is among the first nodes after
    /// the constant.
    pub open spec fn is_state_or_input(&self, idx: int) -> bool {
        idx < self.latchs@.len() + self.inputs@.len()
    }
}

/// Node `idx` and every node it reaches can be written: each conjunction
/// reached has its fanins before it, and each leaf reached has a name or is
/// an input or a latch.
pub open spec fn node_ok(aig: &Aig, idx: int) -> bool
    decreases idx,
{
    if 0 <= idx < aig.nodes@.len() {
        match aig.nodes@[idx] {
            AigNodeType::False => true,
            AigNodeType::Leaf => aig.symbol(idx) is Some || aig.is_state_or_input(idx),
            AigNodeType::And(l, r) => if l.id < idx && r.id < idx {
                node_ok(aig, l.id as int) && node_ok(aig, r.id as int)
            } else {
                false
            },
        }
    } else {
        false
    }
}

/// `⊥`, the false constant.
pub open spec fn bottom_text() -> Seq<char> {
    seq!['\u{22a5}']
}

/// The text of node `idx`: the constant, a leaf's name or index in braces,
/// or a conjunction of the texts of its edges.
pub open spec fn node_text(aig: &Aig, idx: int) -> Seq<char>
    decreases idx, 1int,
{
    if 0 <= idx < aig.nodes@.len() {
        match aig.nodes@[idx] {
            AigNodeType::False => bottom_text(),
            AigNodeType::Leaf => match aig.symbol(idx) {
                Some(n) => n,
                None => seq!['{'] + decimal(idx as nat) + seq!['}'],
            },
            AigNodeType::And(l, r) => if l.id < idx && r.id < idx {
                seq!['('] + edge_text(aig, l) + seq![')', ' ', '\u{2227}', ' ', '('] + edge_text(aig, r)
                    + seq![')']
            } else {
                Seq::empty()
            },
        }
    } else {
        Seq::empty()
    }
}

/// The text of an edge: `¬` before a complemented edge, then its node.
pub open spec fn edge_text(aig: &Aig, e: AigEdge) -> Seq<char>
    decreases e.id, 2int,
{
    if e.complement {
        seq!['\u{00ac}'] + node_text(aig, e.id as int)
    } else {
        node_text(aig, e.id as int)
    }
}

/// The text of variable `v`: its name, its index in braces for an input or
/// latch, or the text of its node.
pub open spec fn var_text(aig: &Aig, v: int) -> Seq<char> {
    match aig.symbol(v) {
        Some(n) => n,
        None => if aig.is_state_or_input(v) {
            seq!['{'] + decimal(v as nat) + seq!['}']
        } else {
            node_text(aig, v)
        },
    }
}

/// The text of the literal with code `c`: a positive literal is shown as
/// the negation of its variable.
pub open spec fn lit_text(aig: &Aig, c: u32) -> Seq<char> {
    if c % 2 == 0 {
        seq!['!', '('] + var_text(aig, (c / 2) as int) + seq![')']
    } else {
        var_text(aig, (c / 2) as int)
    }
}

/// The text of a literal with the value it takes: ` <- ⊤` when positive,
/// ` <- ⊥` when negative, after the text of its variable.
pub open spec fn lit_value_text(aig: &Aig, c: u32) -> Seq<char> {
    var_text(aig, (c / 2) as int) + seq![' ', '<', '-', ' '] + if c % 2 == 0 {
        seq!['\u{22a4}']
    } else {
        bottom_text()
    }
}

/// The text of variable `v` can be written: it has a name, is an input or
/// a latch, or is a node that can be written.
pub open spec fn var_printable(aig: &Aig, v: int) -> bool {
    aig.symbol(v) is Some || aig.is_state_or_input(v) || node_ok(aig, v)
}

/// Appends `{idx}`.
fn push_braced(f: &mut String, idx: usize)
    ensures
        final(f)@ == old(f)@ + seq!['{'] + decimal(idx as nat) + seq!['}'],
{
    push_char(f, '{');
    push_decimal(f, idx as u64);
    push_char(f, '}');
}

/// Appends the text of node `idx`.
pub fn fmt_aig_node(f: &mut String, aig: &Aig, idx: usize)
    requires
        idx < aig.nodes@.len(),
        node_ok(aig, idx as int),
    ensures
        final(f)@ == old(f)@ + node_text(aig, idx as int),
    decreases idx, 1int,
{
    match &aig.nodes[idx] {
        AigNodeType::False => {
            push_char(f, '\u{22a5}');
        },
        AigNodeType::Leaf => {
            match aig.symbols.get(&idx) {
                Some(n) => {
                    push_string(f, n);
                },
                None => {
                    push_braced(f, idx);
                },
            }
        },
        AigNodeType::And(lhs, rhs) => {
            push_char(f, '(');
            fmt_aig_edge(f, aig, lhs);
            push_chars(f, &[')', ' ', '\u{2227}', ' ', '(']);
            fmt_aig_edge(f, aig, rhs);
            push_char(f, ')');
            proof {
                assert(final(f)@ =~= old(f)@ + node_text(aig, idx as int));
            }
        },
    }
}

/// Appends the text of an edge.
pub fn fmt_aig_edge(f: &mut String, aig: &Aig, edge: &AigEdge)
    requires
        edge.id < aig.nodes@.len(),
        node_ok(aig, edge.id as int),
    ensures
        final(f)@ == old(f)@ + edge_text(aig, *edge),
    decreases edge.id, 2int,
{
    if edge.complement {
        push_char(f, '\u{00ac}');
    }
    fmt_aig_node(f, aig, edge.id);
    proof {
        assert(final(f)@ =~= old(f)@ + edge_text(aig, *edge));
    }
}

/// Appends the text of the variable of `lit`.
pub fn fmt_(f: &mut String, aig: &Aig, lit: Lit)
    requires
        var_printable(aig, (lit.0 / 2) as int),
    ensures
        final(f)@ == old(f)@ + lit_text(aig, lit.0),
{
    if lit.polarity() {
        push_chars(f, &['!', '(']);
        fmt_var(f, aig, lit.var().0);
        push_char(f, ')');
        proof {
            assert(final(f)@ =~= old(f)@ + lit_text(aig, lit.0));
        }
    } else {
        fmt_var(f, aig, lit.var().0);
    }
}

/// Appends the text of variable `v`.
fn fmt_var(f: &mut String, aig: &Aig, v: u32)
    requires
        var_printable(aig, v as int),
    ensures
        final(f)@ == old(f)@ + var_text(aig, v as int),
{
    let var = v as usize;
    match aig.symbols.get(&var) {
        Some(n) => {
            push_string(f, n);
        },
        None => {
            if var < aig.latchs.len() || var - aig.latchs.len() < aig.inputs.len() {
                push_braced(f, var);
            } else {
                fmt_aig_node(f, aig, var);
            }
        },
    }
}

/// Appends the text of `lit` with the value it takes.
pub fn fmt_lit(f: &mut String, aig: &Aig, lit: Lit)
    requires
        var_printable(aig, (lit.0 / 2) as int),
    ensures
        final(f)@ == old(f)@ + lit_value_text(aig, lit.0),
{
    if lit.polarity() {
        fmt_(f, aig, lit.not());
        push_chars(f, &[' ', '<', '-', ' ', '\u{22a4}']);
    } else {
        fmt_(f, aig, lit);
        push_chars(f, &[' ', '<', '-', ' ', '\u{22a5}']);
    }
    proof {
        assert(final(f)@ =~= old(f)@ + lit_value_text(aig, lit.0));
    }
}

} // verus!
