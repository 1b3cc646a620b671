use ric3::aig::{fmt_aig_edge, fmt_aig_node, Aig, AigEdge, AigNodeType};
use ric3::display::{LemmaDisplay, LitDisplay, LitVecDispaly};
use ric3::frame::{Frame, Frames};
use ric3::lit::{Lemma, Lit, Var};
use std::collections::HashMap;

/// Node 0 false, inputs 1 (named `a`) and 2, latch 3 (named `b`),
/// 4 = a & !2, 5 = !4 & a.
fn sample() -> Aig {
    let mut symbols = HashMap::new();
    symbols.insert(1usize, String::from("a"));
    symbols.insert(3usize, String::from("b"));
    Aig {
        nodes: vec![
            AigNodeType::False,
            AigNodeType::Leaf,
            AigNodeType::Leaf,
            AigNodeType::Leaf,
            AigNodeType::And(AigEdge { id: 1, complement: false }, AigEdge { id: 2, complement: true }),
            AigNodeType::And(AigEdge { id: 4, complement: true }, AigEdge { id: 1, complement: false }),
        ],
        inputs: vec![1, 2],
        latchs: vec![3],
        symbols,
    }
}

#[test]
fn node_texts() {
    let aig = sample();
    let mut s = String::new();
    fmt_aig_node(&mut s, &aig, 0);
    assert_eq!(s, "\u{22a5}");
    let mut s = String::new();
    fmt_aig_node(&mut s, &aig, 1);
    assert_eq!(s, "a");
    let mut s = String::new();
    fmt_aig_node(&mut s, &aig, 2);
    assert_eq!(s, "{2}");
    let mut s = String::new();
    fmt_aig_node(&mut s, &aig, 3);
    assert_eq!(s, "b");
    let mut s = String::new();
    fmt_aig_node(&mut s, &aig, 4);
    assert_eq!(s, "(a) \u{2227} (\u{00ac}{2})");
    let mut s = String::new();
    fmt_aig_node(&mut s, &aig, 5);
    assert_eq!(s, "(\u{00ac}(a) \u{2227} (\u{00ac}{2})) \u{2227} (a)");
}

#[test]
fn edge_text_complemented() {
    let aig = sample();
    let mut s = String::from("x");
    fmt_aig_edge(&mut s, &aig, &AigEdge { id: 2, complement: true });
    assert_eq!(s, "x\u{00ac}{2}");
}

#[test]
fn lit_display_values() {
    let aig = sample();
    let pos = Lit::new(Var(1), true);
    let neg = Lit::new(Var(2), false);
    let node = Lit::new(Var(4), true);
    assert_eq!(LitDisplay { lit: &pos, aig: &aig }.to_string(), "a <- \u{22a4}");
    assert_eq!(LitDisplay { lit: &neg, aig: &aig }.to_string(), "{2} <- \u{22a5}");
    assert_eq!(LitDisplay { lit: &node, aig: &aig }.to_string(), "(a) \u{2227} (\u{00ac}{2}) <- \u{22a4}");
}

#[test]
fn lits_and_lemma_display() {
    let aig = sample();
    let lits = vec![Lit(5), Lit(2)];
    assert_eq!(
        LitVecDispaly { lits: &lits, aig: &aig }.to_string(),
        "\n    {2} <- \u{22a5}\n    a <- \u{22a4}"
    );
    let lemma = Lemma::new(lits.clone());
    assert_eq!(
        LemmaDisplay { lemma: &lemma, aig: &aig }.to_string(),
        "\n    a <- \u{22a4}\n    {2} <- \u{22a5}"
    );
}

#[test]
fn frames_display() {
    let aig = sample();
    let mut f: Frames<u32> = Frames::new(Var(4));
    f.get_mut().push(Frame::new());
    f.get_mut().push(Frame::new());
    f.add_lemma(1, vec![Lit(5)], false, None, false);
    f.add_lemma(1, vec![Lit(2), Lit(4)], false, None, false);
    let text = f.display(&aig).to_string();
    assert_eq!(
        text,
        "inspect into frames.\nframe 0: 0 lemmas\nframe 1: 2 lemmas\n  lemma 0: \n    {2} <- \u{22a5}\n  lemma 1: \n    a <- \u{22a4}\n    {2} <- \u{22a4}\n"
    );
    let one = f.frames()[1].display(&aig).to_string();
    assert_eq!(one, "  lemma 0: \n    {2} <- \u{22a5}\n  lemma 1: \n    a <- \u{22a4}\n    {2} <- \u{22a4}\n");
    let fl = f.frames()[1].lemmas()[0].display(&aig).to_string();
    assert_eq!(fl, "\n    {2} <- \u{22a5}");
}

#[test]
fn unnamed_graph_prints_reached_nodes() {
    let aig = Aig {
        nodes: vec![
            AigNodeType::False,
            AigNodeType::Leaf,
            AigNodeType::Leaf,
            AigNodeType::Leaf,
            AigNodeType::And(AigEdge { id: 1, complement: false }, AigEdge { id: 2, complement: true }),
        ],
        inputs: vec![1, 2, 3],
        latchs: vec![],
        symbols: HashMap::new(),
    };
    let mut s = String::new();
    fmt_aig_node(&mut s, &aig, 4);
    assert_eq!(s, "({1}) \u{2227} (\u{00ac}{2})");
}
