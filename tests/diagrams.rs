use miratope_groups::cox::CdError;
use miratope_groups::{all_permutations, into_pairs, last_vowel_tilde, pair_map, Cox, Group, Permutation};

fn matrix(c: &Cox) -> Vec<Vec<u32>> {
    let n = c.rank();
    (0..n).map(|i| (0..n).map(|j| c.label(i, j)).collect()).collect()
}

#[test]
fn parse_h3() {
    let c = Cox::parse("o5o3o").unwrap().unwrap();
    assert_eq!(matrix(&c), vec![vec![1, 5, 2], vec![5, 1, 3], vec![2, 3, 1]]);
}

#[test]
fn parse_e6_branch() {
    let c = Cox::parse("o3o3o3o3o *c3o").unwrap().unwrap();
    assert_eq!(c.rank(), 6);
    assert_eq!(c.label(2, 5), 3);
    assert_eq!(c.label(4, 5), 2);
    assert_eq!(c.label(3, 4), 3);
}

#[test]
fn parse_adjacent_nodes_default_to_three() {
    let c = Cox::parse("xo").unwrap().unwrap();
    assert_eq!(matrix(&c), vec![vec![1, 3], vec![3, 1]]);
}

#[test]
fn parse_multi_digit_label() {
    let c = Cox::parse("o12o o").unwrap().unwrap();
    assert_eq!(matrix(&c), vec![vec![1, 12, 2], vec![12, 1, 2], vec![2, 2, 1]]);
}

#[test]
fn parse_empty() {
    assert!(Cox::parse("").unwrap().is_none());
    assert!(Cox::parse("   ").unwrap().is_none());
}

#[test]
fn parse_errors() {
    assert_eq!(Cox::parse("o3?").err(), Some(CdError::InvalidSymbol { pos: 2 }));
    assert_eq!(Cox::parse("3o").err(), Some(CdError::MissingNode { pos: 0 }));
    assert_eq!(Cox::parse("o3").err(), Some(CdError::MissingNode { pos: 2 }));
    assert_eq!(Cox::parse("o3 o").err(), Some(CdError::MissingNode { pos: 2 }));
    assert_eq!(Cox::parse("o1o").err(), Some(CdError::InvalidLabel { pos: 2 }));
    assert_eq!(Cox::parse("o99999999999o").err(), Some(CdError::InvalidLabel { pos: 10 }));
    assert_eq!(Cox::parse("o3o *d3o").err(), Some(CdError::InvalidReference { pos: 5 }));
    assert_eq!(Cox::parse("o*a").err(), Some(CdError::InvalidReference { pos: 2 }));
    assert_eq!(Cox::parse("o3o*").err(), Some(CdError::InvalidReference { pos: 4 }));
    assert_eq!(Cox::parse("o3o*a").err(), Some(CdError::RepeatedEdge { pos: 4 }));
}

#[test]
fn families() {
    assert_eq!(matrix(&Cox::a(3)), vec![vec![1, 3, 2], vec![3, 1, 3], vec![2, 3, 1]]);
    assert_eq!(matrix(&Cox::b(3)), vec![vec![1, 4, 2], vec![4, 1, 3], vec![2, 3, 1]]);
    assert_eq!(matrix(&Cox::h(2)), vec![vec![1, 5], vec![5, 1]]);
    assert_eq!(
        matrix(&Cox::d(4)),
        vec![vec![1, 3, 2, 2], vec![3, 1, 3, 3], vec![2, 3, 1, 2], vec![2, 3, 2, 1]]
    );
    assert_eq!(matrix(&Cox::e(6)), matrix(&Cox::parse("o3o3o3o3o *c3o").unwrap().unwrap()));
}

#[test]
fn pairs_of_letters() {
    let r = pair_map(&vec!['a', 'b', 'c'], &vec![1, 2], |c, n| format!("{}{}", c, n));
    assert_eq!(r, vec!["a1", "b1", "c1", "a2", "b2", "c2"]);
    assert!(into_pairs::<u8, u8>(&vec![], &vec![1, 2]).is_empty());
}

#[test]
fn permutations_of_four() {
    let ps = all_permutations(4);
    assert_eq!(ps.len(), 24);
    for (i, p) in ps.iter().enumerate() {
        let mut seen = p.as_vec().clone();
        seen.sort();
        assert_eq!(seen, vec![0, 1, 2, 3]);
        for q in &ps[..i] {
            assert_ne!(p.as_vec(), q.as_vec());
        }
    }
    assert_eq!(all_permutations(0).len(), 1);
}

#[test]
fn permutation_group_of_a_group() {
    let g: Group<Permutation> = Group::involution();
    assert_eq!(g.dim(), 2);
    assert_eq!(g.elements()[1].as_vec(), &vec![1, 0]);
    let s3 = Group::new(3, all_permutations(3)).permutations();
    assert_eq!(s3.dim(), 6);
    assert_eq!(s3.count(), 720);
}

#[test]
fn permutation_groups_generate() {
    let gens = vec![Permutation::new(vec![1, 0, 2, 3]), Permutation::new(vec![1, 2, 3, 0])];
    let s4 = Group::generated_by(4, &gens);
    assert_eq!(s4.count(), 24);
    let c = Group::cyclic_gen(4, Permutation::new(vec![1, 2, 3, 0]), 4);
    assert_eq!(c.elements()[2].as_vec(), &vec![2, 3, 0, 1]);
    let prod = Group::trivial(3).iso(3, |p: &Permutation| p.compose(&Permutation::new(vec![2, 0, 1])));
    assert_eq!(prod.elements()[0].as_vec(), &vec![2, 0, 1]);
}

#[test]
fn subgroups_keep_order() {
    let g = Group::new(4, all_permutations(3));
    let fixed = g.sub(|p: &Permutation| p.get(0) == 0);
    let got: Vec<Vec<usize>> = fixed.elements().iter().map(|p| p.as_vec().clone()).collect();
    assert_eq!(got, vec![vec![0, 2, 1], vec![0, 1, 2]]);
}

#[test]
fn spanish_accents() {
    assert_eq!(last_vowel_tilde(String::from("penta")), "pentá");
    assert_eq!(last_vowel_tilde(String::from("dodeca")), "dodecá");
    assert_eq!(last_vowel_tilde(String::from("hex")), "héx");
    assert_eq!(last_vowel_tilde(String::from("xyz")), "xyz");
    assert_eq!(last_vowel_tilde(String::new()), "");
}

#[test]
fn cyclic_powers_one_at_a_time() {
    let mut c = miratope_groups::Cyclic::new(3, Permutation::new(vec![1, 2, 0]));
    assert_eq!(c.next().as_vec(), &vec![0, 1, 2]);
    assert_eq!(c.next().as_vec(), &vec![1, 2, 0]);
    assert_eq!(c.next().as_vec(), &vec![2, 0, 1]);
    assert_eq!(c.next().as_vec(), &vec![0, 1, 2]);
}

#[test]
fn symmetric_group_is_a_group() {
    let s3 = Group::new(3, all_permutations(3));
    assert!(s3.is_closed());
    assert!(s3.has_inverses(3));
    let not_closed = Group::new(3, vec![Permutation::new(vec![1, 2, 0])]);
    assert!(!not_closed.is_closed());
    assert!(!not_closed.has_inverses(3));
}

#[test]
fn composition_order() {
    let p = Permutation::new(vec![1, 2, 0]);
    let q = Permutation::new(vec![1, 0, 2]);
    // First q, then p.
    assert_eq!(p.compose(&q).as_vec(), &vec![2, 1, 0]);
    let longer = Permutation::new(vec![1, 0, 3, 2]);
    assert_eq!(p.compose(&longer).as_vec(), &vec![2, 1, 3, 0]);
}
