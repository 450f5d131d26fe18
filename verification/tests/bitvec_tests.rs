use graph_lib::bitvec::BitVec;

#[test]
fn pushing() {
    let mut bv = BitVec::new();
    assert!(bv.len == 0);

    bv.push(true);
    bv.push(false);
    bv.push(true);
    bv.push(true);
    bv.push(false);
    assert!(bv.len == 5);

    assert!(bv.get(0) == true);
    assert!(bv.get(1) == false);
    assert!(bv.get(2) == true);
    assert!(bv.get(3) == true);
    assert!(bv.get(4) == false);
}

#[test]
fn packed_bytes_are_msb_first() {
    let mut bv = BitVec::new();
    bv.push(true);
    bv.push(true);
    bv.push(false);
    bv.push(true);
    assert_eq!(bv.vec, vec![0b1101_0000]);
    for _ in 0..5 {
        bv.push(false);
    }
    assert_eq!(bv.len, 9);
    assert_eq!(bv.vec, vec![0b1101_0000, 0]);
}
