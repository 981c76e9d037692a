use truthtable::bitcartesiann::BitCartesianN;

#[test]
fn test_bitcartesiann_0() {
    let a = BitCartesianN::new(0);
    let result = a.into_rows();
    assert!(result.is_empty());
}

#[test]
fn test_bitcartesiann_1() {
    let a = BitCartesianN::new(1);
    let result = a.into_rows();
    assert_eq!(result, vec![vec![false], vec![true]]);
}

#[test]
fn test_bitcartesiann_3() {
    let a = BitCartesianN::new(3);
    let result = a.into_rows();
    assert_eq!(
        result,
        vec![
            vec![false, false, false],
            vec![false, false, true],
            vec![false, true, false],
            vec![false, true, true],
            vec![true, false, false],
            vec![true, false, true],
            vec![true, true, false],
            vec![true, true, true],
        ]
    );
}

#[test]
fn test_bitcartesiann_2_distinct() {
    // 2^2 vectors, pairwise distinct.
    let result = BitCartesianN::new(2).into_rows();
    assert_eq!(result.len(), 4);
    for i in 0..result.len() {
        for j in 0..result.len() {
            if i != j {
                assert_ne!(result[i], result[j]);
            }
        }
    }
}

#[test]
fn test_bitcartesiann_next_restarts() {
    // A fresh enumerator reproduces the same order.
    let first = BitCartesianN::new(2).into_rows();
    let second = BitCartesianN::new(2).into_rows();
    assert_eq!(first, second);
}

#[test]
fn test_bitcartesiann_next_exhausts() {
    let mut a = BitCartesianN::new(1);
    assert_eq!(a.next(), Some(vec![false]));
    assert_eq!(a.next(), Some(vec![true]));
    assert_eq!(a.next(), None);
    assert_eq!(a.next(), None);
}
