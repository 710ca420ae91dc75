use boo::{split_array, xor};

#[test]
fn xor_valid_result() {
    let mut source = [0, 1, 2, 3];
    xor(&mut source, &[34, 52]);

    assert_eq!(source, [34, 53, 32, 55]);
}

#[test]
fn xor_valid_result_with_one_byte() {
    let mut source = [0, 1, 2, 3];
    xor(&mut source, &[47]);

    assert_eq!(source, [47, 46, 45, 44]);
}

#[test]
fn xor_empty_key() {
    let mut source = [0, 1, 2, 3];
    xor(&mut source, &[]);

    assert_eq!(source, [0, 1, 2, 3]);
}

#[test]
fn xor_empty_source() {
    let mut source = [];
    xor(&mut source, &[45, 32, 56]);

    assert!(source.is_empty());
}

#[test]
fn split_array_valid_result() {
    let whole = [1, 2, 3, 4, 5];
    let (left, right): ([u8; 2], [u8; 3]) = split_array(whole);

    assert_eq!(left, [1, 2]);
    assert_eq!(right, [3, 4, 5]);
}

#[test]
fn xor_twice_restores_the_buffer() {
    let keys: [&[u8]; 4] = [&[], &[1], &[34, 52], &[9, 8, 7, 6, 5, 4, 3, 2, 1, 0]];
    for key in keys {
        let mut source = [0u8, 1, 2, 3, 250, 255, 17];
        xor(&mut source, key);
        xor(&mut source, key);
        assert_eq!(source, [0, 1, 2, 3, 250, 255, 17]);
    }
}

#[test]
fn xor_wraps_the_key_around() {
    let mut source = [0xff, 0xff, 0xff, 0xff, 0xff];
    xor(&mut source, &[0x0f, 0xf0]);

    assert_eq!(source, [0xf0, 0x0f, 0xf0, 0x0f, 0xf0]);
}

#[test]
fn split_array_with_an_empty_side() {
    let (left, right): ([u8; 0], [u8; 3]) = split_array([7, 8, 9]);
    assert_eq!(left, []);
    assert_eq!(right, [7, 8, 9]);

    let (left, right): ([u8; 3], [u8; 0]) = split_array([7, 8, 9]);
    assert_eq!(left, [7, 8, 9]);
    assert_eq!(right, []);
}
