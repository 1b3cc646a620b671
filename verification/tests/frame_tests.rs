use ric3::frame::{Frame, FrameLemma, Frames};
use ric3::lit::{Lemma, Lit, Var};

fn lits(codes: &[u32]) -> Vec<Lit> {
    codes.iter().map(|c| Lit(*c)).collect()
}

fn codes(l: &Lemma) -> Vec<u32> {
    l.cube().iter().map(|l| l.0).collect()
}

fn frame_codes(f: &Frames<u32>, i: usize) -> Vec<Vec<u32>> {
    f.frames()[i].lemmas().iter().map(|fl| codes(fl.lemma())).collect()
}

fn frames_with(n: usize) -> Frames<u32> {
    let mut f: Frames<u32> = Frames::new(Var(60));
    for _ in 0..n {
        f.get_mut().push(Frame::new());
    }
    f
}

#[test]
fn frames_new_is_empty() {
    let f: Frames<u32> = Frames::new(Var(3));
    assert_eq!(f.len(), 0);
    assert_eq!(f.early, 1);
    f.statistic();
}

#[test]
fn add_lemma_to_frame_zero() {
    let mut f = frames_with(1);
    let r = f.add_lemma(0, lits(&[4, 2]), false, Some(7), false);
    assert_eq!(r.clause_from, Some(0));
    assert!(r.to_bad_solver);
    assert!(!r.inv_found);
    assert_eq!(r.moved_from, None);
    assert_eq!(frame_codes(&f, 0), vec![vec![2, 4]]);
    assert_eq!(f.frames()[0].lemmas()[0].po, Some(7));
    let r2 = f.add_lemma(0, lits(&[6]), false, None, true);
    assert!(!r2.to_bad_solver);
}

#[test]
fn add_lemma_drops_subsumed_and_finds_invariant() {
    let mut f = frames_with(3);
    let r = f.add_lemma(1, lits(&[2, 4]), true, None, false);
    assert_eq!(r.clause_from, Some(1));
    assert!(!r.to_bad_solver);
    assert!(!r.inv_found);
    assert_eq!(frame_codes(&f, 1), vec![vec![2, 4]]);
    let r = f.add_lemma(2, lits(&[2]), true, None, false);
    assert_eq!(r.clause_from, Some(1));
    assert!(r.to_bad_solver);
    assert!(r.inv_found);
    assert_eq!(frame_codes(&f, 1), Vec::<Vec<u32>>::new());
    assert_eq!(frame_codes(&f, 2), vec![vec![2]]);
    assert_eq!(f.early, 1);
}

#[test]
fn add_lemma_contained_changes_nothing() {
    let mut f = frames_with(3);
    f.add_lemma(2, lits(&[2]), true, None, false);
    let r = f.add_lemma(1, lits(&[6, 2, 4]), true, None, false);
    assert_eq!(r.clause_from, None);
    assert!(!r.to_bad_solver);
    assert!(!r.inv_found);
    assert_eq!(frame_codes(&f, 1), Vec::<Vec<u32>>::new());
    assert_eq!(frame_codes(&f, 2), vec![vec![2]]);
    let r = f.add_lemma(1, lits(&[6, 2, 4]), false, None, false);
    assert_eq!(r.clause_from, Some(1));
    assert_eq!(frame_codes(&f, 1), vec![vec![2, 4, 6]]);
}

#[test]
fn add_lemma_moves_equal_lemma_up() {
    let mut f = frames_with(3);
    f.add_lemma(1, lits(&[2, 4]), true, Some(1), false);
    f.early = 5;
    let r = f.add_lemma(2, lits(&[4, 2]), false, Some(2), false);
    assert_eq!(r.moved_from, Some(1));
    assert_eq!(r.clause_from, Some(2));
    assert!(r.inv_found);
    assert_eq!(frame_codes(&f, 1), Vec::<Vec<u32>>::new());
    assert_eq!(frame_codes(&f, 2), vec![vec![2, 4]]);
    assert_eq!(f.frames()[2].lemmas()[0].po, Some(2));
    assert_eq!(f.early, 2);
}

#[test]
fn add_lemma_stops_at_stronger_lemma() {
    let mut f = frames_with(3);
    f.add_lemma(1, lits(&[2]), true, None, false);
    let r = f.add_lemma(2, lits(&[2, 4]), false, None, false);
    assert_eq!(r.moved_from, None);
    assert_eq!(r.clause_from, Some(2));
    assert!(!r.inv_found);
    assert_eq!(frame_codes(&f, 1), vec![vec![2]]);
    assert_eq!(frame_codes(&f, 2), vec![vec![2, 4]]);
}

#[test]
fn add_lemma_keeps_every_lemma_covered() {
    let mut f = frames_with(4);
    f.add_lemma(1, lits(&[2, 4, 6]), false, None, false);
    f.add_lemma(2, lits(&[2, 8]), false, None, false);
    f.add_lemma(2, lits(&[10]), false, None, false);
    f.add_lemma(3, lits(&[2]), false, None, false);
    // the lemmas that [2] subsumes were dropped below frame 3
    assert_eq!(frame_codes(&f, 1), Vec::<Vec<u32>>::new());
    assert_eq!(frame_codes(&f, 2), vec![vec![10]]);
    assert_eq!(frame_codes(&f, 3), vec![vec![2]]);
}

#[test]
fn trivial_contained_finds_first_subsumer() {
    let mut f = frames_with(3);
    f.add_lemma(1, lits(&[2, 4]), false, Some(10), false);
    f.add_lemma(2, lits(&[6]), false, Some(20), false);
    f.add_lemma(2, lits(&[2]), false, Some(30), false);
    let l = Lemma::new(lits(&[2, 4, 6]));
    assert_eq!(f.trivial_contained(1, &l), Some((2, 0)));
    assert_eq!(f.trivial_contained(3, &l), None);
    let m = Lemma::new(lits(&[2, 9]));
    assert_eq!(f.trivial_contained(0, &m), Some((2, 1)));
    let n = Lemma::new(lits(&[8]));
    assert_eq!(f.trivial_contained(0, &n), None);
    let po = f.po_mut(2, 1);
    assert_eq!(*po, Some(30));
    *po = Some(31);
    assert_eq!(f.frames()[2].lemmas()[1].po, Some(31));
}

#[test]
fn invariant_lemmas_collects_from_first_empty_frame() {
    let mut f = frames_with(4);
    f.add_lemma(1, lits(&[2, 4]), false, None, false);
    f.add_lemma(3, lits(&[8, 6]), false, None, false);
    f.add_lemma(3, lits(&[6, 2]), false, None, false);
    f.add_lemma(3, lits(&[4]), false, None, false);
    let inv = f.invariant_lemmas();
    let got: Vec<Vec<u32>> = inv.iter().map(codes).collect();
    assert_eq!(got, vec![vec![2, 6], vec![4], vec![6, 8]]);
}

#[test]
fn parent_lemmas_of_a_frame() {
    let mut f = frames_with(3);
    f.add_lemma(1, lits(&[2]), false, None, false);
    f.add_lemma(1, lits(&[4]), false, None, false);
    f.add_lemma(1, lits(&[6, 2]), false, None, false);
    let l = Lemma::new(lits(&[2, 4]));
    let p = f._parent_lemma(&l, 2).unwrap();
    assert_eq!(codes(&p), vec![2]);
    let ps: Vec<Vec<u32>> = f._parent_lemmas(&l, 2).iter().map(codes).collect();
    assert_eq!(ps, vec![vec![2], vec![4]]);
    assert!(f._parent_lemma(&l, 1).is_none());
    assert!(f._parent_lemmas(&l, 1).is_empty());
    let q = Lemma::new(lits(&[8]));
    assert!(f._parent_lemma(&q, 2).is_none());
}

#[test]
fn similar_keeps_longest_distinct_parts() {
    let mut f = frames_with(3);
    f.add_lemma(1, lits(&[2, 4, 6, 10]), false, None, false);
    f.add_lemma(1, lits(&[2, 4, 12]), false, None, false);
    f.add_lemma(2, lits(&[2, 4, 14]), false, None, false);
    f.add_lemma(2, lits(&[2, 16]), false, None, false);
    f.add_lemma(2, lits(&[2, 4, 6, 8]), false, None, false);
    let cube = lits(&[2, 4, 6, 8]);
    let r: Vec<Vec<u32>> = f.similar(&cube, 1).iter().map(|v| v.iter().map(|l| l.0).collect()).collect();
    assert_eq!(r, vec![vec![2, 4, 6], vec![2, 4]]);
    let r2: Vec<Vec<u32>> = f.similar(&cube, 2).iter().map(|v| v.iter().map(|l| l.0).collect()).collect();
    assert_eq!(r2, vec![vec![2, 4]]);
    assert!(f.similar(&cube, 3).is_empty());
}

#[test]
fn similar_keeps_at_most_three() {
    let mut f = frames_with(2);
    f.add_lemma(1, lits(&[2, 4, 6, 100]), false, None, false);
    f.add_lemma(1, lits(&[2, 4, 8, 100]), false, None, false);
    f.add_lemma(1, lits(&[2, 6, 8, 100]), false, None, false);
    f.add_lemma(1, lits(&[4, 6, 8, 100]), false, None, false);
    f.add_lemma(1, lits(&[2, 4, 102]), false, None, false);
    let cube = lits(&[2, 4, 6, 8]);
    let r = f.similar(&cube, 0);
    assert_eq!(r.len(), 3);
    for v in r.iter() {
        assert_eq!(v.len(), 3);
    }
    assert!(r[0] != r[1] && r[1] != r[2] && r[0] != r[2]);
}

#[test]
fn frame_lemma_new_and_frame_push() {
    let fl: FrameLemma<u32> = FrameLemma::new(Lemma::new(lits(&[3, 1])), Some(5), Some(lits(&[7])));
    assert_eq!(codes(fl.lemma()), vec![1, 3]);
    assert_eq!(fl.po, Some(5));
    assert_eq!(fl._ctp, Some(lits(&[7])));
    let mut fr: Frame<u32> = Frame::new();
    assert!(fr.is_empty());
    fr.push(fl);
    assert_eq!(fr.len(), 1);
}

#[test]
fn add_lemma_stops_at_first_subsumer_met() {
    let mut f = frames_with(3);
    f.add_lemma(1, lits(&[2]), false, None, false);
    f.add_lemma(1, lits(&[4, 2]), false, None, false);
    assert_eq!(frame_codes(&f, 1), vec![vec![2], vec![2, 4]]);
    let r = f.add_lemma(2, lits(&[2, 4]), false, None, false);
    assert_eq!(r.clause_from, Some(2));
    assert_eq!(r.moved_from, None);
    assert!(!r.inv_found);
    assert_eq!(frame_codes(&f, 1), vec![vec![2], vec![2, 4]]);
    assert_eq!(frame_codes(&f, 2), vec![vec![2, 4]]);
}

fn subsumes(a: &[u32], b: &[u32]) -> bool {
    a.len() <= b.len() && a.iter().all(|x| b.contains(x))
}

fn no_redundant(f: &Frames<u32>) -> bool {
    let n = f.len();
    for i in 1..n {
        for j in i..n {
            let fi = frame_codes(f, i);
            let fj = frame_codes(f, j);
            for (p, x) in fi.iter().enumerate() {
                for (q, y) in fj.iter().enumerate() {
                    if !(i == j && p == q) && subsumes(y, x) {
                        return false;
                    }
                }
            }
        }
    }
    true
}

#[test]
fn add_lemma_with_check_keeps_frames_free_of_redundancy() {
    let mut f = frames_with(4);
    let adds: [(usize, &[u32]); 8] = [
        (1, &[2, 4, 6]),
        (2, &[2, 8]),
        (1, &[4, 6]),
        (3, &[2, 4, 6]),
        (2, &[10, 12]),
        (1, &[2, 8, 12]),
        (3, &[8]),
        (2, &[4, 6]),
    ];
    for (frame, cube) in adds.iter() {
        f.add_lemma(*frame, lits(cube), true, None, false);
        assert!(no_redundant(&f));
    }
    assert_eq!(frame_codes(&f, 3).len(), 2);
}
