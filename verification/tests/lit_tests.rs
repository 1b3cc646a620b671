use ric3::lit::{Lemma, Lit, LitSet, Var};

fn lits(codes: &[u32]) -> Vec<Lit> {
    codes.iter().map(|c| Lit(*c)).collect()
}

fn codes(l: &Lemma) -> Vec<u32> {
    l.cube().iter().map(|l| l.0).collect()
}

#[test]
fn lit_new_var_polarity_not() {
    let p = Lit::new(Var(3), true);
    let n = Lit::new(Var(3), false);
    assert_eq!(p, Lit(6));
    assert_eq!(n, Lit(7));
    assert_eq!(p.var(), Var(3));
    assert_eq!(n.var(), Var(3));
    assert!(p.polarity());
    assert!(!n.polarity());
    assert_eq!(p.not(), n);
    assert_eq!(n.not(), p);
}

#[test]
fn lemma_new_sorts_and_keeps_duplicates() {
    let l = Lemma::new(lits(&[9, 2, 7, 2]));
    assert_eq!(codes(&l), vec![2, 2, 7, 9]);
    assert_eq!(l.len(), 4);
    assert!(l.is_sorted());
}

#[test]
fn lemma_subsume_cases() {
    let a = Lemma::new(lits(&[2, 6]));
    let b = Lemma::new(lits(&[6, 4, 2]));
    let c = Lemma::new(lits(&[2, 7]));
    assert!(a.subsume(&b));
    assert!(!b.subsume(&a));
    assert!(!c.subsume(&b));
    assert!(a.subsume(&a));
    let empty = Lemma::new(vec![]);
    assert!(empty.subsume(&a));
    assert!(!a.subsume(&empty));
}

#[test]
fn lemma_eq_and_clone() {
    let a = Lemma::new(lits(&[4, 2]));
    let b = Lemma::new(lits(&[2, 4]));
    let c = Lemma::new(lits(&[2, 5]));
    assert!(a.eq(&b));
    assert!(!a.eq(&c));
    let d = c.clone();
    assert!(d.eq(&c));
    assert_eq!(codes(&d), vec![2, 5]);
}

#[test]
fn lemma_order() {
    let a = Lemma::new(lits(&[2, 4]));
    let b = Lemma::new(lits(&[2, 5]));
    let prefix = Lemma::new(lits(&[2]));
    assert!(a.le(&b));
    assert!(!b.le(&a));
    assert!(prefix.le(&a));
    assert!(!a.le(&prefix));
    assert!(a.le(&a));
}

#[test]
fn lit_set_insert_has_clear() {
    let mut s = LitSet::new_with(Var(4));
    assert!(!s.has(Lit(3)));
    s.insert(Lit(3));
    s.insert(Lit(9));
    s.insert(Lit(3));
    assert!(s.has(Lit(3)));
    assert!(s.has(Lit(9)));
    assert!(!s.has(Lit(2)));
    s.clear();
    assert!(!s.has(Lit(3)));
    assert!(!s.has(Lit(9)));
    s.reserve(Var(10));
    s.insert(Lit(21));
    assert!(s.has(Lit(21)));
}
