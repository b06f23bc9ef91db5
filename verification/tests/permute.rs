use kicad_spaghetti::permute::apply_permutation;
use kicad_spaghetti::permute::inverse_permutation;
use kicad_spaghetti::permute::sorted_order;

#[test]
fn sorted_order_sorts_keys() {
    let keys: Vec<u128> = vec![50, 10, 30, 20, 40];
    let order = sorted_order(&keys);
    assert_eq!(order, vec![1, 3, 2, 4, 0]);
    assert_eq!(sorted_order(&Vec::new()), Vec::<usize>::new());
}

#[test]
fn sorted_order_with_ties_is_a_permutation() {
    let keys: Vec<u128> = vec![2, 1, 2, 1, 0];
    let order = sorted_order(&keys);
    let mut seen = order.clone();
    seen.sort();
    assert_eq!(seen, vec![0, 1, 2, 3, 4]);
    for w in order.windows(2) {
        assert!(keys[w[0]] <= keys[w[1]]);
    }
}

#[test]
fn inverse_undoes_permutation() {
    let p = vec![1usize, 2, 0, 4, 3];
    let inv = inverse_permutation(&p);
    assert_eq!(inv, vec![2, 0, 1, 4, 3]);
    for k in 0..p.len() {
        assert_eq!(inv[p[k]], k);
        assert_eq!(p[inv[k]], k);
    }
}

#[test]
fn apply_permutation_gathers_by_order() {
    let mut items = vec!['a', 'b', 'c', 'd', 'e'];
    apply_permutation(&mut items, vec![1, 2, 0, 4, 3]);
    assert_eq!(items, vec!['b', 'c', 'a', 'e', 'd']);
    let mut same = vec![7, 8, 9];
    apply_permutation(&mut same, vec![0, 1, 2]);
    assert_eq!(same, vec![7, 8, 9]);
}
