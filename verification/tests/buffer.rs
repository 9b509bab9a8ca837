use areq::buffer::{Buffer, Maybe};

#[test]
fn buffer_read() {
    let mut b: Buffer<[u8; 4]> = Buffer::default();

    let mut input = [0, 1].as_slice();
    assert!(b.read_from(&mut input).is_none());
    assert_eq!(b.rest(), 2);
    assert!(input.is_empty());

    let mut input = [2, 3].as_slice();
    assert_eq!(b.read_from(&mut input), Some(&mut [0, 1, 2, 3]));
    assert_eq!(b.rest(), 0);
    assert!(input.is_empty());

    let mut input = [4, 5].as_slice();
    assert_eq!(b.read_from(&mut input), Some(&mut [0, 1, 2, 3]));
    assert_eq!(b.rest(), 0);
    assert_eq!(input, [4, 5]);
}

#[test]
fn buffer_read_more_input() {
    let mut b: Buffer<[u8; 4]> = Buffer::default();

    let mut input = [0, 1, 2, 3, 4, 5].as_slice();
    assert_eq!(b.read_from(&mut input), Some(&mut [0, 1, 2, 3]));
    assert_eq!(b.rest(), 0);
    assert_eq!(input, [4, 5]);
}

#[test]
fn buffer_read_nothing() {
    let mut b: Buffer<Maybe<[u8; 0]>> = Buffer::nothing(4);

    let mut input = [0, 1].as_slice();
    assert!(b.read_from(&mut input).is_none());
    assert_eq!(b.rest(), 2);
    assert!(input.is_empty());

    let mut input = [2, 3].as_slice();
    assert_eq!(b.read_from(&mut input), Some(&mut Maybe::Nothing));
    assert_eq!(b.rest(), 0);
    assert!(input.is_empty());
}

#[test]
fn buffer_allocate_and_just() {
    let mut b = Buffer::allocate(3).just();
    let mut input = [7, 8, 9, 10].as_slice();
    assert_eq!(b.read_from(&mut input), Some(&mut Maybe::Just(vec![7, 8, 9])));
    assert_eq!(input, [10]);
}
