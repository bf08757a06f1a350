use syzygy::geometry::{binomial, lower_of, mirror_d, mirror_h, mirror_v, triangle_of};
use syzygy::groups::GroupData;
use syzygy::material::{Material, MaterialSide};
use syzygy::table::canonicalize;
use syzygy::position::Position;
use syzygy::types::{Color, Outcome, Piece, Role, Syzygy, Wdl};

fn side(pawns: u8, knights: u8, bishops: u8, rooks: u8, queens: u8, kings: u8) -> MaterialSide {
    MaterialSide { pawns, knights, bishops, rooks, queens, kings }
}

#[test]
fn variant_constants() {
    assert_eq!(<Position as Syzygy>::WDL_SUFFIX, "rtbw");
    assert_eq!(<Position as Syzygy>::DTZ_SUFFIX, "rtbz");
    assert_eq!(
        u32::from_le_bytes(<Position as Syzygy>::WDL_MAGIC),
        syzygy::table::WDL_MAGIC_LE
    );
    assert_eq!(<Position as Syzygy>::DTZ_MAGIC, [0xd7, 0x66, 0x0c, 0xa5]);
    assert!(<Position as Syzygy>::ONE_KING);
    assert!(!<Position as Syzygy>::CONNECTED_KINGS);
    assert!(!<Position as Syzygy>::CAPTURES_COMPULSORY);
}

#[test]
fn wdl_negation_and_signum() {
    assert_eq!(Wdl::Loss.negate(), Wdl::Win);
    assert_eq!(Wdl::BlessedLoss.negate(), Wdl::CursedWin);
    assert_eq!(Wdl::Draw.negate(), Wdl::Draw);
    assert_eq!(Wdl::Win.signum(), 2);
    assert_eq!(Wdl::Loss.signum(), -2);
    assert_eq!(Wdl::CursedWin.signum(), 1);
    assert_eq!(Wdl::Win.negate().signum(), -2);
}

#[test]
fn wdl_from_outcome() {
    let w = Outcome::Decisive { winner: Color::White };
    assert_eq!(Wdl::from_outcome(w, Color::White), Wdl::Win);
    assert_eq!(Wdl::from_outcome(w, Color::Black), Wdl::Loss);
    assert_eq!(Wdl::from_outcome(Outcome::Draw, Color::White), Wdl::Draw);
}

#[test]
fn binomial_values() {
    assert_eq!(binomial(0, 0), 1);
    assert_eq!(binomial(5, 2), 10);
    assert_eq!(binomial(61, 1), 61);
    assert_eq!(binomial(62, 2), 1891);
    assert_eq!(binomial(64, 7), 621216192);
    assert_eq!(binomial(3, 7), 0);
}

#[test]
fn square_geometry() {
    assert_eq!(mirror_h(0), 7);
    assert_eq!(mirror_h(60), 59);
    assert_eq!(mirror_v(0), 56);
    assert_eq!(mirror_d(1), 8);
    // the triangle map on the a1-d4 quarter
    assert_eq!(triangle_of(0), 6);
    assert_eq!(triangle_of(9), 7);
    assert_eq!(triangle_of(18), 8);
    assert_eq!(triangle_of(27), 9);
    assert_eq!(triangle_of(1), 0);
    assert_eq!(triangle_of(3), 2);
    assert_eq!(triangle_of(10), 3);
    assert_eq!(triangle_of(19), 5);
    // the row-by-row count of off-diagonal squares
    assert_eq!(lower_of(1), 0);
    assert_eq!(lower_of(7), 6);
    assert_eq!(lower_of(14), 11);
    assert_eq!(lower_of(8), 0);
}

#[test]
fn canonicalization_is_idempotent() {
    let samples: [[u8; 4]; 4] = [[60, 5, 36, 8], [1, 10, 63, 55], [63, 62, 61, 60], [27, 0, 9, 18]];
    for sample in samples.iter() {
        let mut once: Vec<u8> = sample.to_vec();
        canonicalize(&mut once, 3);
        let mut twice = once.clone();
        canonicalize(&mut twice, 3);
        assert_eq!(once, twice);
    }
}

#[test]
fn material_predicates() {
    let kqvkr = Material {
        white: side(0, 0, 0, 0, 1, 1),
        black: side(0, 0, 0, 1, 0, 1),
    };
    assert_eq!(kqvkr.count(), 4);
    assert!(!kqvkr.has_pawns());
    assert!(!kqvkr.is_symmetric());
    assert_eq!(kqvkr.unique_pieces(), 4);
    assert_eq!(kqvkr.min_like_man(), 0);
    // the queen outranks the rook in the tie-break, so the queen side
    // plays white in the canonical orientation
    let n = kqvkr.into_normalized();
    assert_eq!(n.white.queens, 1);
    assert_eq!(n.black.rooks, 1);
    assert_eq!(n.into_normalized(), n);
    let flipped = Material { white: kqvkr.black, black: kqvkr.white };
    assert_eq!(flipped.into_normalized(), n);

    let krrvk = Material {
        white: side(0, 0, 0, 2, 0, 1),
        black: side(0, 0, 0, 0, 0, 1),
    };
    assert_eq!(krrvk.unique_pieces(), 2);
    assert_eq!(krrvk.min_like_man(), 2);

    let kqvkq = Material {
        white: side(0, 0, 0, 0, 1, 1),
        black: side(0, 0, 0, 0, 1, 1),
    };
    assert!(kqvkq.is_symmetric());
    assert_eq!(kqvkq.into_normalized(), kqvkq);
}

#[test]
fn group_factors_three_pieces() {
    let pieces = vec![
        Piece { color: Color::White, role: Role::King },
        Piece { color: Color::White, role: Role::Queen },
        Piece { color: Color::Black, role: Role::King },
    ];
    let gd = GroupData::new(pieces, 0, false).expect("grouped");
    assert_eq!(gd.lens, vec![3]);
    assert_eq!(gd.factors, vec![1, 31332]);
}

#[test]
fn group_factors_four_pieces() {
    let pieces = vec![
        Piece { color: Color::White, role: Role::King },
        Piece { color: Color::White, role: Role::Queen },
        Piece { color: Color::Black, role: Role::King },
        Piece { color: Color::Black, role: Role::Rook },
    ];
    let gd = GroupData::new(pieces, 0, false).expect("grouped");
    assert_eq!(gd.lens, vec![3, 1]);
    // the leading group is placed first, then the rook group over the
    // 61 remaining squares
    assert_eq!(gd.factors, vec![1, 31332, 31332 * 61]);
}

#[test]
fn group_factors_like_pair() {
    // a doubled rook makes a run of two equal pieces
    let pieces = vec![
        Piece { color: Color::White, role: Role::King },
        Piece { color: Color::White, role: Role::Queen },
        Piece { color: Color::Black, role: Role::King },
        Piece { color: Color::Black, role: Role::Rook },
        Piece { color: Color::Black, role: Role::Rook },
    ];
    let gd = GroupData::new(pieces, 0, false).expect("grouped");
    assert_eq!(gd.lens, vec![3, 2]);
    // 61 choose 2 placements for the rook pair
    assert_eq!(gd.factors, vec![1, 31332, 31332 * 1830]);
}

#[test]
fn group_order_out_of_range_is_rejected() {
    let pieces = vec![
        Piece { color: Color::White, role: Role::King },
        Piece { color: Color::White, role: Role::Queen },
        Piece { color: Color::Black, role: Role::King },
    ];
    assert!(GroupData::new(pieces, 5, false).is_err());
}
