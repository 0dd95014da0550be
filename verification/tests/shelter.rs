use rim_sim::map::TileMap;
use rim_sim::shelter::exposure;

#[test]
fn a_lee_fades_downwind() {
    let m = TileMap::new(6, 1);
    assert_eq!(exposure(&m, &[100, 0, 0, 0, 0, 0], 0, 3), vec![0, 25, 50, 75, 100, 100]);
    assert_eq!(exposure(&m, &[0, 0, 0, 0, 0, 60], 4, 3), vec![100, 100, 85, 70, 55, 40]);
    assert_eq!(exposure(&m, &[0, 0, 0, 0, 0, 60], 8, 3), vec![100, 100, 100, 100, 100, 40]);
}

#[test]
fn a_wall_casts_one_lee_from_its_downwind_face() {
    let m = TileMap::new(6, 1);
    assert_eq!(exposure(&m, &[100, 100, 0, 0, 0, 0], 0, 3), vec![0, 0, 25, 50, 75, 100]);
    // Where lees overlap the stronger one counts.
    assert_eq!(exposure(&m, &[40, 0, 100, 0, 0, 0], 0, 3), vec![60, 70, 0, 25, 50, 75]);
}

#[test]
fn diagonal_winds_shade_diagonally() {
    let m = TileMap::new(3, 3);
    let mut blocks = vec![0u8; 9];
    blocks[0] = 80;
    assert_eq!(exposure(&m, &blocks, 1, 2), vec![20, 100, 100, 100, 47, 100, 100, 100, 74]);
}
