use sudoku_gen::candidates::CandidateIndex;
use sudoku_gen::peers::get_peer_mask;

#[test]
fn free_digits_follow_the_peer_mask() {
    let table = CandidateIndex::new();
    assert_eq!(
        table.get_available_options_from_peer_mask(0).clone(),
        vec![1, 2, 4, 8, 16, 32, 64, 128, 256]
    );
    assert_eq!(
        table.get_available_options_from_peer_mask(0b100000101).clone(),
        vec![2, 8, 16, 32, 64, 128]
    );
    assert!(table.get_available_options_from_peer_mask(0x1ff).is_empty());
}

#[test]
fn peer_mask_reads_row_column_and_box() {
    let mut g = [0u32; 81];
    g[2] = 1; // row 0
    g[72] = 2; // column 0
    g[20] = 4; // box 0
    g[40] = 8; // elsewhere
    assert_eq!(get_peer_mask(&g, &0), 7);
    assert_eq!(get_peer_mask(&g, &40), 8);
    assert_eq!(get_peer_mask(&g, &80), 2);
}
