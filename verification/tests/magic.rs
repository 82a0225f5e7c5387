use chessing::bitboard::{BitBoard, Bounds};
use chessing::chess::pieces::leapers::king::KingMoves;
use chessing::chess::pieces::leapers::knight::KnightMoves;
use chessing::chess::pieces::leapers::leaper::LeaperMoves;
use chessing::chess::pieces::sliders::bishop::BishopMoves;
use chessing::chess::pieces::sliders::magics::{magic_index, try_make_table};
use chessing::chess::pieces::sliders::rook::RookMoves;
use chessing::chess::pieces::sliders::slider::{Slider, SliderMoves};
use chessing::chess::pieces::sliders::{repeat, Direction};
use chessing::chess::Chess;
use chessing::game::MagicEntry;

#[test]
fn magic_lookup_equals_the_walked_rays() {
    let chess = Chess::create(42).expect("magic constants are found");
    for (kind, squares) in [(2usize, [0usize, 27, 63]), (3usize, [0usize, 28, 63])] {
        for square in squares {
            let entry = chess.magics[kind][square];
            let table = &chess.tables[kind][square];
            assert_eq!(table.len(), 1 << (64 - entry.shift));
            assert_eq!(64 - entry.shift, entry.mask.count() as usize);
            let mut blockers = 0u64;
            let mut count = 0;
            loop {
                let walked = if kind == 2 {
                    Slider::<BishopMoves>::list_moves(&chess, kind, square, BitBoard(blockers))
                } else {
                    Slider::<RookMoves>::list_moves(&chess, kind, square, BitBoard(blockers))
                };
                assert_eq!(table[magic_index(entry, BitBoard(blockers))], walked);
                count += 1;
                blockers = blockers.wrapping_sub(entry.mask.0) & entry.mask.0;
                if blockers == 0 {
                    break;
                }
            }
            assert_eq!(count, 1usize << entry.mask.count());
        }
    }
}

#[test]
fn relevant_squares_leave_out_the_ends_of_the_rays() {
    let chess = Chess::create(42).expect("magic constants are found");
    // Rook on a1: the squares a2 to a7 and b1 to g1.
    assert_eq!(chess.magics[3][0].mask, BitBoard(0x0001_0101_0101_017e));
    // Rook on e4.
    assert_eq!(chess.magics[3][28].mask, BitBoard(0x0010_1010_6e10_1000));
    // Bishop on a1: the diagonal from b2 to g7.
    assert_eq!(chess.magics[2][0].mask, BitBoard(0x0040_2010_0804_0200));
    assert_eq!(chess.magics[2][0].shift, 58);
    assert_eq!(chess.magics[3][0].shift, 52);
}

#[test]
fn a_clashing_constant_gives_no_table() {
    let chess = Chess::create(42).expect("magic constants are found");
    let good = chess.magics[3][0];
    let bad = MagicEntry { mask: good.mask, magic: 0, shift: good.shift };
    assert!(try_make_table::<RookMoves>(&chess, bad, 3, 0).is_none());
    assert_eq!(
        try_make_table::<RookMoves>(&chess, good, 3, 0),
        Some(chess.tables[3][0].clone())
    );
}

#[test]
fn rays_run_to_the_edge_of_the_board() {
    let edges = BitBoard::edges(Bounds::new(8, 8), 1);
    let e4 = BitBoard::index(28);
    assert_eq!(repeat(e4, Direction::Up, &edges), BitBoard(0x1010_1010_0000_0000));
    assert_eq!(repeat(e4, Direction::Down, &edges), BitBoard(0x0000_0000_0010_1010));
    assert_eq!(repeat(e4, Direction::Left, &edges), BitBoard(0x0000_0000_0f00_0000));
    assert_eq!(repeat(e4, Direction::Right, &edges), BitBoard(0x0000_0000_e000_0000));
    assert_eq!(repeat(e4, Direction::UpRight, &edges), BitBoard(0x0080_4020_0000_0000));
    assert_eq!(repeat(e4, Direction::UpLeft, &edges), BitBoard(0x0102_0408_0000_0000));
    assert_eq!(repeat(e4, Direction::DownRight, &edges), BitBoard(0x0000_0000_0020_4080));
    assert_eq!(repeat(e4, Direction::DownLeft, &edges), BitBoard(0x0000_0000_0008_0402));
    assert_eq!(repeat(BitBoard::index(63), Direction::Up, &edges), BitBoard::empty());
    assert_eq!(RookMoves.rays(e4, &edges).len(), 4);
    assert_eq!(BishopMoves.rays(e4, &edges).len(), 4);
}

#[test]
fn walked_rays_stop_at_the_first_blocker() {
    let chess = Chess::create(42).expect("magic constants are found");
    // Rook on e4, blockers on e6 and c4 and g4: e5, e6, d4, c4, f4, g4 and
    // the ray down to e1.
    let blockers = BitBoard((1 << 44) | (1 << 26) | (1 << 30));
    let moves = Slider::<RookMoves>::list_moves(&chess, 3, 28, blockers);
    assert_eq!(
        moves,
        BitBoard((1 << 36) | (1 << 44) | (1 << 27) | (1 << 26) | (1 << 29) | (1 << 30) | (1 << 20) | (1 << 12) | (1 << 4))
    );
    assert!(Slider::<RookMoves>::can_attack(&chess, 3, 28, blockers, BitBoard::index(44)));
    assert!(!Slider::<RookMoves>::can_attack(&chess, 3, 28, blockers, BitBoard::index(52)));
    assert!(!Slider::<RookMoves>::can_attack(&chess, 3, 28, blockers, BitBoard::index(35)));
}

#[test]
fn leapers_reach_their_squares() {
    let edges = BitBoard::edges(Bounds::new(8, 8), 1);
    assert_eq!(
        KnightMoves.leaps(BitBoard::index(0), &edges),
        BitBoard((1 << 10) | (1 << 17))
    );
    assert_eq!(
        KnightMoves.leaps(BitBoard::index(28), &edges),
        BitBoard((1 << 11) | (1 << 13) | (1 << 18) | (1 << 22) | (1 << 34) | (1 << 38) | (1 << 43) | (1 << 45))
    );
    assert_eq!(
        KingMoves.leaps(BitBoard::index(0), &edges),
        BitBoard((1 << 1) | (1 << 8) | (1 << 9))
    );
    assert_eq!(
        KingMoves.leaps(BitBoard::index(63), &edges),
        BitBoard((1 << 62) | (1 << 55) | (1 << 54))
    );
    let chess = Chess::create(42).expect("magic constants are found");
    for square in 0..64u16 {
        assert_eq!(chess.lookup[1][0][square as usize], KnightMoves.leaps(BitBoard::index(square), &edges));
        assert_eq!(chess.lookup[5][0][square as usize], KingMoves.leaps(BitBoard::index(square), &edges));
    }
}

#[test]
fn the_shift_leaves_one_bit_for_each_square_of_the_mask() {
    let chess = Chess::create(42).expect("magic constants are found");
    for kind in [2usize, 3] {
        for square in 0..64usize {
            let entry = chess.magics[kind][square];
            let count = entry.mask.count() as usize;
            assert!(count >= 1);
            assert_eq!(entry.shift, 64 - count);
            assert_eq!(chess.tables[kind][square].len(), 1usize << count);
        }
    }
    assert_eq!(chess.magics[3][0].shift, 52);
    assert_eq!(chess.magics[3][27].shift, 54);
    assert_eq!(chess.magics[2][0].shift, 58);
    assert_eq!(chess.magics[2][27].shift, 55);
}
