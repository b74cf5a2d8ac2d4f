use yamaos::util::mem::memset;

#[test]
fn memset_fills_prefix() {
    let mut v: Vec<u8> = vec![7; 10];
    memset(&mut v, 0xAB, 4);
    assert_eq!(v, vec![0xAB, 0xAB, 0xAB, 0xAB, 7, 7, 7, 7, 7, 7]);
    memset(&mut v, 0, 0);
    assert_eq!(v[0], 0xAB);
    memset(&mut v, 1, 10);
    assert_eq!(v, vec![1; 10]);
}
