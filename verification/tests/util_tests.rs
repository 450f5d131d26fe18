use graph_lib::util::{dec_to_factorial, factorial, permute};

#[test]
fn factorial_values() {
    assert_eq!(factorial(&0), 1);
    assert_eq!(factorial(&1), 1);
    assert_eq!(factorial(&5), 120);
    assert_eq!(factorial(&20), 2432902008176640000);
}

#[test]
fn factorial_base_digits() {
    let mut out = Vec::new();
    dec_to_factorial(5, 3, &mut out);
    assert_eq!(out, vec![2, 1, 0]);
    dec_to_factorial(0, 4, &mut out);
    assert_eq!(out, vec![0, 0, 0, 0]);
}

#[test]
fn permute_by_removal_indices() {
    let list = vec![10, 20, 30];
    let perm = vec![1, 1, 0];
    let mut scratch = Vec::new();
    let mut out = Vec::new();
    permute(&list, &perm, &mut scratch, &mut out);
    assert_eq!(out, vec![20, 30, 10]);
}

#[test]
fn permute_identity() {
    let list = vec![4, 5, 6, 7];
    let perm = vec![0, 0, 0, 0];
    let mut scratch = Vec::new();
    let mut out = Vec::new();
    permute(&list, &perm, &mut scratch, &mut out);
    assert_eq!(out, list);
}
