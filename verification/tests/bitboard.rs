use chessing::bitboard::{BitBoard, BitPositions, Bounds};

#[test]
fn set_operations() {
    let a = BitBoard(0b1100);
    let b = BitBoard(0b1010);
    assert_eq!(a.or(b), BitBoard(0b1110));
    assert_eq!(a.and(b), BitBoard(0b1000));
    assert_eq!(a.xor(b), BitBoard(0b0110));
    assert_eq!(a.and_not(b), BitBoard(0b0100));
    assert_eq!(a.not(), BitBoard(!0b1100u64));
    assert!(a.gt(b));
    assert!(b.lt(a));
    assert!(!a.lt(a));
    assert_eq!(BitBoard::empty(), BitBoard(0));
    assert_eq!(BitBoard::default(), BitBoard(0));
    assert!(BitBoard::empty().is_empty());
    assert!(!BitBoard::empty().is_set());
    assert!(a.is_set());
    assert_eq!(a.count(), 2);
    assert_eq!(BitBoard(u64::MAX).count(), 64);
}

#[test]
fn shifts_move_squares() {
    let e4 = BitBoard::index(28);
    assert_eq!(e4, BitBoard(1 << 28));
    assert_eq!(e4.right(1), BitBoard::index(29));
    assert_eq!(e4.left(1), BitBoard::index(27));
    assert_eq!(e4.up(1, 8), BitBoard::index(36));
    assert_eq!(e4.down(2, 8), BitBoard::index(12));
    assert_eq!(BitBoard::index(63).right(1), BitBoard::empty());
    assert_eq!(BitBoard::index(0).left(1), BitBoard::empty());
}

#[test]
fn rows_are_as_long_as_the_board_is_wide() {
    assert_eq!(BitBoard(1).up(2, 8), BitBoard(0x10000));
    assert_eq!(BitBoard(0x10000).down(2, 8), BitBoard(1));
    // On four columns one row is four squares.
    assert_eq!(BitBoard(1).up(1, 4), BitBoard(1 << 4));
    assert_eq!(BitBoard(1).up(10, 4), BitBoard(1 << 40));
    assert_eq!(BitBoard(1 << 40).down(10, 4), BitBoard(1));
    assert_eq!(BitBoard(0b1011).up(3, 5), BitBoard(0b1011 << 15));
    assert_eq!(BitBoard(0b1011 << 15).down(2, 5), BitBoard(0b1011 << 5));
    assert_eq!(BitBoard(0b1011).down(1, 3), BitBoard(0b1));
    assert_eq!(BitBoard(u64::MAX).up(7, 9), BitBoard(u64::MAX << 63));
    assert_eq!(BitBoard(0b110).up(0, 6), BitBoard(0b110));
    assert_eq!(BitBoard(0b110).up(5, 0), BitBoard(0b110));

    // A board of three rows and four columns, squares 0 to 11.
    let bounds = Bounds::new(3, 4);
    let edges = BitBoard::edges(bounds, 1);
    assert_eq!(BitBoard::index(1).try_up(&edges, 1, 4), BitBoard::index(5));
    assert_eq!(BitBoard::index(1).try_up(&edges, 2, 4), BitBoard::index(9));
    assert_eq!(BitBoard::index(1).try_up(&edges, 3, 4), BitBoard::empty());
    assert_eq!(BitBoard::index(10).try_down(&edges, 2, 4), BitBoard::index(2));
    assert_eq!(BitBoard::index(10).try_down(&edges, 3, 4), BitBoard::empty());
    assert_eq!(BitBoard::coords(2, 1, bounds).up(1, 4), BitBoard::coords(2, 0, bounds));
    assert_eq!(BitBoard::coords(2, 1, bounds).down(1, 4), BitBoard::coords(2, 2, bounds));
}

#[test]
fn edges_of_the_chess_board() {
    let bounds = Bounds::new(8, 8);
    assert_eq!(BitBoard::edges_left(bounds, 1), BitBoard(0x0101_0101_0101_0101));
    assert_eq!(BitBoard::edges_right(bounds, 1), BitBoard(0x8080_8080_8080_8080));
    assert_eq!(BitBoard::edges_down(bounds, 1), BitBoard(0x0000_0000_0000_00ff));
    assert_eq!(BitBoard::edges_up(bounds, 1), BitBoard(0xff00_0000_0000_0000));
    assert_eq!(BitBoard::edges_left(bounds, 2), BitBoard(0x0303_0303_0303_0303));
    assert_eq!(BitBoard::edges_right(bounds, 4), BitBoard(0xf0f0_f0f0_f0f0_f0f0));
    assert_eq!(BitBoard::edges_up(bounds, 2), BitBoard(0xffff_0000_0000_0000));
    assert_eq!(BitBoard::edges_down(bounds, 9), BitBoard(u64::MAX));
    assert_eq!(BitBoard::edges_left(bounds, 0), BitBoard::empty());
    let edges = BitBoard::edges(bounds, 1);
    assert_eq!(edges.all, BitBoard(0xff81_8181_8181_81ff));
    assert_eq!(edges.left, BitBoard(0x0101_0101_0101_0101));
    // Boards of fewer than three rows or columns have no edges.
    assert_eq!(BitBoard::edges_left(Bounds::new(2, 8), 1), BitBoard::empty());
    assert_eq!(BitBoard::edges_up(Bounds::new(8, 2), 1), BitBoard::empty());
    // A board of three rows and four columns.
    assert_eq!(BitBoard::edges_right(Bounds::new(3, 4), 1), BitBoard(0b1000_1000_1000));
    assert_eq!(BitBoard::edges_up(Bounds::new(3, 4), 1), BitBoard(0b1111_0000_0000));
}

#[test]
fn try_shifts_stop_at_the_edges() {
    let edges = BitBoard::edges(Bounds::new(8, 8), 1);
    assert_eq!(BitBoard::index(6).try_right(&edges, 1), BitBoard::index(7));
    assert_eq!(BitBoard::index(6).try_right(&edges, 2), BitBoard::empty());
    assert_eq!(BitBoard::index(7).try_right(&edges, 1), BitBoard::empty());
    assert_eq!(BitBoard::index(8).try_left(&edges, 1), BitBoard::empty());
    assert_eq!(BitBoard::index(9).try_left(&edges, 1), BitBoard::index(8));
    assert_eq!(BitBoard::index(48).try_up(&edges, 1, 8), BitBoard::index(56));
    assert_eq!(BitBoard::index(48).try_up(&edges, 2, 8), BitBoard::empty());
    assert_eq!(BitBoard::index(9).try_down(&edges, 1, 8), BitBoard::index(1));
    assert_eq!(BitBoard::index(1).try_down(&edges, 1, 8), BitBoard::empty());
    assert_eq!(BitBoard::index(28).try_up(&edges, 0, 8), BitBoard::index(28));
}

#[test]
fn spans_between_squares() {
    assert_eq!(BitBoard::between(4, 7), BitBoard(0b0110_0000));
    assert_eq!(BitBoard::between(7, 4), BitBoard(0b0110_0000));
    assert_eq!(BitBoard::between(4, 5), BitBoard::empty());
    assert_eq!(BitBoard::between(4, 4), BitBoard::empty());
    assert_eq!(BitBoard::between(0, 63), BitBoard(u64::MAX & !1 & !(1 << 63)));
    assert_eq!(BitBoard::between_inclusive(4, 6), BitBoard(0b0111_0000));
    assert_eq!(BitBoard::between_inclusive(6, 4), BitBoard(0b0111_0000));
    assert_eq!(BitBoard::between_inclusive(5, 5), BitBoard::index(5));
    assert_eq!(BitBoard::between_inclusive(0, 63), BitBoard(u64::MAX));
    assert_eq!(BitBoard::between_inclusive(1, 63), BitBoard(u64::MAX & !1));
}

#[test]
fn coordinates_count_rows_from_the_top() {
    let bounds = Bounds::new(8, 8);
    assert_eq!(BitBoard::coords(0, 0, bounds), BitBoard::index(56));
    assert_eq!(BitBoard::coords(7, 0, bounds), BitBoard::index(63));
    assert_eq!(BitBoard::coords(0, 7, bounds), BitBoard::index(0));
    assert_eq!(BitBoard::coords(4, 6, bounds), BitBoard::index(12));
    assert_eq!(BitBoard::coords(1, 2, Bounds::new(3, 4)), BitBoard::index(1));
}

#[test]
fn scans_and_iteration_go_by_square_number() {
    let set = BitBoard((1 << 3) | (1 << 17) | (1 << 63));
    assert_eq!(set.bitscan_forward(), 3);
    assert_eq!(set.bitscan_backward(), 63);
    assert_eq!(BitBoard::index(0).bitscan_forward(), 0);
    assert_eq!(BitBoard::index(0).bitscan_backward(), 0);
    let mut it = set.iter();
    assert_eq!(it.next(), Some(3));
    assert_eq!(it.next(), Some(17));
    assert_eq!(it.next(), Some(63));
    assert_eq!(it.next(), None);
    assert_eq!(it.next(), None);
    let mut none = BitPositions::new(0);
    assert_eq!(none.next(), None);
}
