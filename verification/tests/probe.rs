use syzygy::errors::{ProbeError, SyzygyError};
use syzygy::position::Position;
use syzygy::table::{decompress, Table};
use syzygy::tablebases::Tablebases;
use syzygy::types::{Color, Piece, Role, Wdl};

const WK: u8 = 0x06;
const WQ: u8 = 0x05;
const WR: u8 = 0x04;
const BK: u8 = 0x0e;
const BQ: u8 = 0x0d;
const BR: u8 = 0x0c;

fn piece(code: u8) -> Piece {
    let color = if code & 8 != 0 { Color::Black } else { Color::White };
    let role = match code & 7 {
        1 => Role::Pawn,
        2 => Role::Knight,
        3 => Role::Bishop,
        4 => Role::Rook,
        5 => Role::Queen,
        _ => Role::King,
    };
    Piece { color, role }
}

/// Build a complete pawnless WDL file: one byte per table value, coded
/// with a flat 8-bit alphabet so that every stored byte is one symbol.
fn craft(
    pieces: &[u8],
    split: bool,
    size: u64,
    span_log: u8,
    value0: &dyn Fn(u64) -> u8,
    value1: &dyn Fn(u64) -> u8,
) -> Vec<u8> {
    let block_vals: u64 = 4096;
    let blocks = (size + block_vals - 1) / block_vals;
    let span: u64 = 1 << span_log;
    let sparse = size / span + if size % span != 0 { 1 } else { 0 };

    let mut f: Vec<u8> = vec![0x71, 0xe8, 0x23, 0x5d];
    f.push(if split { 1 } else { 0 });
    f.push(0x00); // both order nibbles zero
    for &c in pieces {
        f.push(c | (c << 4));
    }
    let pairs_start = {
        let p = 6 + pieces.len();
        p + p % 2
    };
    while f.len() < pairs_start {
        f.push(0);
    }

    let header = |f: &mut Vec<u8>| {
        f.push(0x00); // flags
        f.push(12); // block size log2
        f.push(span_log);
        f.push(0); // padding blocks
        f.extend_from_slice(&(blocks as u32).to_le_bytes());
        f.push(8); // max code length
        f.push(8); // min code length
        f.extend_from_slice(&0u16.to_le_bytes()); // lowest symbol of length 8
        f.extend_from_slice(&256u16.to_le_bytes()); // symbol count
        for s in 0..=255u8 {
            f.push(s); // the byte the terminal symbol stands for
            f.push(0xf0);
            f.push(0xff);
        }
    };
    header(&mut f);
    if split {
        header(&mut f);
    }

    let sides = if split { 2 } else { 1 };
    for _ in 0..sides {
        for k in 0..sparse {
            // each entry points at value k * span + span / 2
            let v = k * span + span / 2;
            let block = (v / block_vals) as u32;
            let within = (v % block_vals) as u16;
            f.extend_from_slice(&block.to_le_bytes());
            f.extend_from_slice(&within.to_le_bytes());
        }
    }
    for _ in 0..sides {
        for b in 0..blocks {
            let first = b * block_vals;
            let vals = if first + block_vals <= size { block_vals } else { size - first };
            f.extend_from_slice(&((vals - 1) as u16).to_le_bytes());
        }
    }
    for side in 0..sides {
        while f.len() % 64 != 0 {
            f.push(0);
        }
        for b in 0..blocks {
            for j in 0..block_vals {
                let idx = b * block_vals + j;
                if idx < size {
                    f.push(if side == 0 { value0(idx) } else { value1(idx) });
                } else {
                    f.push(0);
                }
            }
        }
    }
    f
}

fn kqvk_bytes() -> Vec<u8> {
    craft(&[WK, WQ, BK], true, 31332, 13, &|i| (i % 5) as u8, &|i| ((i * 3) % 5) as u8)
}

fn kqvk_position(turn: Color) -> Position {
    let mut pos = Position::new(turn, false);
    pos.set_piece(1, piece(WK));
    pos.set_piece(10, piece(WQ));
    pos.set_piece(63, piece(BK));
    pos
}

fn load(bytes: Vec<u8>) -> Tablebases {
    let mut tb = Tablebases::new();
    tb.add_table(bytes).expect("table accepted");
    tb
}

#[test]
fn kqvk_white_to_move() {
    let tb = load(kqvk_bytes());
    // canonical index of the position is 619; white to move reads the
    // second side, whose value there is (619 * 3) % 5 = 2
    let wdl = tb.probe_wdl(&kqvk_position(Color::White)).expect("probes");
    assert_eq!(wdl, Wdl::Draw);
}

#[test]
fn kqvk_black_to_move() {
    let tb = load(kqvk_bytes());
    // the first side holds 619 % 5 = 4
    let wdl = tb.probe_wdl(&kqvk_position(Color::Black)).expect("probes");
    assert_eq!(wdl, Wdl::Win);
}

#[test]
fn mirrored_probe_is_identical() {
    let tb = load(kqvk_bytes());
    let pos = kqvk_position(Color::White);
    let mirrored = pos.mirror_horizontal();
    assert_eq!(tb.probe_wdl(&pos).unwrap(), tb.probe_wdl(&mirrored).unwrap());
}

#[test]
fn swapped_colors_probe_is_identical() {
    let tb = load(kqvk_bytes());
    let pos = kqvk_position(Color::White);
    let swapped = pos.swap_colors();
    assert_eq!(tb.probe_wdl(&pos).unwrap(), tb.probe_wdl(&swapped).unwrap());
}

#[test]
fn castling_rights_are_rejected() {
    let tb = load(kqvk_bytes());
    let mut pos = Position::new(Color::White, true);
    pos.set_piece(1, piece(WK));
    pos.set_piece(10, piece(WQ));
    pos.set_piece(63, piece(BK));
    assert_eq!(tb.probe_wdl(&pos), Err(SyzygyError::Castling));
}

#[test]
fn missing_table_is_reported() {
    let tb = load(kqvk_bytes());
    // seven pieces, but only the three-piece table is loaded
    let mut pos = Position::new(Color::White, false);
    pos.set_piece(0, piece(WK));
    pos.set_piece(1, piece(WQ));
    pos.set_piece(2, piece(WR));
    pos.set_piece(3, piece(WR));
    pos.set_piece(60, piece(BK));
    pos.set_piece(61, piece(BR));
    pos.set_piece(62, piece(BR));
    match tb.probe_wdl(&pos) {
        Err(SyzygyError::MissingTable { .. }) => (),
        other => panic!("expected a missing table, got {:?}", other),
    }
}

#[test]
fn too_many_pieces_is_reported() {
    let tb = load(kqvk_bytes());
    let mut pos = Position::new(Color::White, false);
    for sq in 0..6 {
        pos.set_piece(sq, piece(WR));
    }
    pos.set_piece(8, piece(WK));
    pos.set_piece(63, piece(BK));
    assert_eq!(tb.probe_wdl(&pos), Err(SyzygyError::TooManyPieces));
}

#[test]
fn truncated_file_is_corrupt() {
    let mut bytes = kqvk_bytes();
    bytes.pop();
    let mut tb = Tablebases::new();
    assert_eq!(tb.add_table(bytes), Err(ProbeError::CorruptedTable));
}

#[test]
fn bad_magic_is_reported() {
    let mut bytes = kqvk_bytes();
    bytes[0] = 0x72;
    let mut tb = Tablebases::new();
    match tb.add_table(bytes) {
        Err(ProbeError::Magic { magic }) => assert_eq!(magic, 0x5d23_e872),
        other => panic!("expected a magic error, got {:?}", other),
    }
}

#[test]
fn decompression_stays_in_the_alphabet() {
    let table = Table::new(kqvk_bytes()).expect("parses");
    let mut idx = 0u64;
    while idx < 31332 {
        let b = decompress(&table.bytes, &table.sides[0], idx).expect("decodes");
        assert!(b < 5);
        assert_eq!(b, (idx % 5) as u8);
        let b1 = decompress(&table.bytes, &table.sides[1], idx).expect("decodes");
        assert_eq!(b1, ((idx * 3) % 5) as u8);
        idx += 401;
    }
}

#[test]
fn symmetric_table_negates_across_turns() {
    // a symmetric four-piece table whose data holds the win for the
    // probed diagram with white to move and the loss with black to move
    let bytes = craft(
        &[WK, WQ, BK, BQ],
        false,
        1911252,
        12,
        &|i| {
            if i == 1661215 {
                4
            } else if i == 1402097 {
                0
            } else {
                2
            }
        },
        &|_| 2,
    );
    let tb = load(bytes);
    let mut pos = Position::new(Color::White, false);
    pos.set_piece(1, piece(WK));
    pos.set_piece(10, piece(WQ));
    pos.set_piece(63, piece(BK));
    pos.set_piece(55, piece(BQ));
    let white = tb.probe_wdl(&pos).expect("probes");
    let mut pos_b = Position::new(Color::Black, false);
    pos_b.set_piece(1, piece(WK));
    pos_b.set_piece(10, piece(WQ));
    pos_b.set_piece(63, piece(BK));
    pos_b.set_piece(55, piece(BQ));
    let black = tb.probe_wdl(&pos_b).expect("probes");
    assert_eq!(white, Wdl::Win);
    assert_eq!(black, Wdl::Loss);
    assert_eq!(black, white.negate());
}

#[test]
fn unmatched_pieces_are_a_mismatch() {
    // probing a table directly with a position of different material
    // fails to locate the listed queen
    let table = Table::new(kqvk_bytes()).expect("parses");
    let mut pos = Position::new(Color::White, false);
    pos.set_piece(1, piece(WK));
    pos.set_piece(10, piece(WR));
    pos.set_piece(63, piece(BK));
    assert_eq!(table.probe_wdl(&pos), Err(ProbeError::Mismatch));
}

#[test]
fn out_of_alphabet_byte_is_corrupt() {
    // a stored byte above 4 is not a WDL value
    let bytes = craft(&[WK, WQ, BK], true, 31332, 13, &|i| if i == 619 { 7 } else { 2 }, &|_| 2);
    let tb = load(bytes);
    match tb.probe_wdl(&kqvk_position(Color::Black)) {
        Err(SyzygyError::ProbeFailed { error, .. }) => {
            assert_eq!(error, ProbeError::CorruptedTable)
        },
        other => panic!("expected a corrupted table, got {:?}", other),
    }
}

fn kqvkr_bytes() -> Vec<u8> {
    // the canonical key puts the queen side on white, as the file's
    // high nibbles do
    craft(
        &[WK, WQ, BK, BR],
        true,
        1911252,
        12,
        &|i| if i == 1753581 { 0 } else { 2 },
        &|i| if i == 1765313 { 4 } else { 2 },
    )
}

#[test]
fn queen_side_to_move_wins() {
    // the queen pins the rook against the king: a win for the mover
    let tb = load(kqvkr_bytes());
    let mut pos = Position::new(Color::White, false);
    pos.set_piece(60, piece(BK));
    pos.set_piece(61, piece(BR));
    pos.set_piece(40, piece(WQ));
    pos.set_piece(4, piece(WK));
    assert_eq!(tb.probe_wdl(&pos).unwrap(), Wdl::Win);
}

#[test]
fn rook_side_to_move_loses() {
    // the same table probed with the rook side to move
    let tb = load(kqvkr_bytes());
    let mut pos = Position::new(Color::Black, false);
    pos.set_piece(60, piece(BK));
    pos.set_piece(36, piece(WK));
    pos.set_piece(8, piece(WQ));
    pos.set_piece(5, piece(BR));
    assert_eq!(tb.probe_wdl(&pos).unwrap(), Wdl::Loss);
}
