use game99::board::{BoardMove, FullBoard};
use game99::digest::{truncate_digest, HASH_BYTES};
use std::collections::HashSet;

fn board(radix: u8, cells: &[u8]) -> FullBoard {
    FullBoard::from_cells(radix, cells.to_vec()).expect("valid cells")
}

#[test]
fn a_fingerprint_is_the_first_half_of_the_digest() {
    assert_eq!(HASH_BYTES, 16);
    let mut digest = [0u8; 32];
    for i in 0..32 {
        digest[i] = i as u8;
    }
    assert_eq!(truncate_digest(&digest), 0x000102030405060708090a0b0c0d0e0f);
    assert_eq!(truncate_digest(&[0u8; 32]), 0);
    assert_eq!(truncate_digest(&[255u8; 32]), u128::MAX);
    let mut last = [0u8; 32];
    last[15] = 1;
    last[16] = 7;
    assert_eq!(truncate_digest(&last), 1);
}

#[test]
fn fingerprints_of_known_boards() {
    assert_eq!(
        FullBoard::with_radix(4).unwrap().get_hash(),
        0xde50da354b21f3fbd4495e8adf22e433
    );
    assert_eq!(FullBoard::new().get_hash(), 0x6596a022b55b9711be1912bf32eb0c17);
    assert_eq!(board(4, &[0, 0, 1]).get_hash(), 0xcf7605ed1bc735f6c825554154627467);
    assert_eq!(board(4, &[1, 2, 3]).get_hash(), 0x039058c6f2c0cb492c533b0a4d14ef77);
    assert_eq!(board(4, &[]).get_hash(), 0xe3b0c44298fc1c149afbf4c8996fb924);
}

#[test]
fn boards_with_the_same_cells_have_the_same_fingerprint() {
    let built = FullBoard::new();
    let written = board(
        10,
        &[1, 2, 3, 4, 5, 6, 7, 8, 9, 1, 1, 1, 2, 1, 3, 1, 4, 1, 5, 1, 6, 1, 7, 1, 8, 1, 9],
    );
    assert_eq!(built.get_hash(), written.get_hash());
    assert_eq!(built.get_hash(), built.clone().get_hash());

    let played = FullBoard::with_radix(4).unwrap().apply_move(BoardMove::CrossDownFrom(0, 3));
    assert_eq!(played.get_hash(), board(4, &[0, 2, 3, 0, 1, 1, 2, 1, 3]).get_hash());
}

#[test]
fn a_fingerprint_depends_on_the_cells_alone() {
    assert_eq!(board(4, &[1, 2, 0, 3]).get_hash(), board(10, &[1, 2, 0, 3]).get_hash());
}

#[test]
fn boards_that_differ_have_fingerprints_that_differ() {
    assert_ne!(board(4, &[1, 2]).get_hash(), board(4, &[2, 1]).get_hash());
    assert_ne!(board(4, &[0]).get_hash(), board(4, &[0, 0]).get_hash());
    assert_ne!(board(4, &[]).get_hash(), board(4, &[0]).get_hash());

    let mut state: u64 = 0x2545f4914f6cdd1d;
    let mut boards: HashSet<Vec<u8>> = HashSet::new();
    let mut prints: HashSet<u128> = HashSet::new();
    for _ in 0..5000 {
        let mut cells = Vec::new();
        state = state.wrapping_mul(6364136223846793005).wrapping_add(1442695040888963407);
        let len = (state >> 33) % 40;
        for _ in 0..len {
            state = state.wrapping_mul(6364136223846793005).wrapping_add(1442695040888963407);
            cells.push(((state >> 33) % 10) as u8);
        }
        prints.insert(board(10, &cells).get_hash());
        boards.insert(cells);
    }
    assert!(boards.len() > 4000);
    assert_eq!(prints.len(), boards.len());
}
