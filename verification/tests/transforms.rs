use wave_collapse::tile::Symmetry;
use wave_collapse::tile::Tile;

fn asym_tile(sym: Symmetry) -> Tile {
    Tile::new(
        1,
        String::from("one"),
        vec![vec![1, 2], vec![3, 4]],
        sym,
        0,
    )
}

#[test]
fn rotate_cw_quarter_turn() {
    let t = asym_tile(Symmetry::L);
    assert_eq!(t.rotate_cw(), vec![vec![3, 1], vec![4, 2]]);
}

#[test]
fn rotate_cw_twice_is_half_turn() {
    let t = asym_tile(Symmetry::L);
    assert_eq!(t.rotate_cw_twice(), vec![vec![4, 3], vec![2, 1]]);
}

#[test]
fn reflect_mirrors_columns() {
    let t = asym_tile(Symmetry::L);
    assert_eq!(t.reflect(), vec![vec![2, 1], vec![4, 3]]);
}

#[test]
fn l_symmetry_yields_four_transforms() {
    let t = asym_tile(Symmetry::L);
    let ts = t.generate_transforms();
    assert_eq!(ts.len(), 4);
    assert_eq!(ts[0], vec![vec![1, 2], vec![3, 4]]);
    assert_eq!(ts[1], vec![vec![3, 1], vec![4, 2]]);
    assert_eq!(ts[2], vec![vec![4, 3], vec![2, 1]]);
    assert_eq!(ts[3], vec![vec![2, 4], vec![1, 3]]);
    // a genuinely asymmetric pattern: all four are distinct
    assert_ne!(ts[0], ts[1]);
    assert_ne!(ts[0], ts[2]);
    assert_ne!(ts[0], ts[3]);
    assert_ne!(ts[1], ts[2]);
    assert_ne!(ts[1], ts[3]);
    assert_ne!(ts[2], ts[3]);
}

#[test]
fn x_symmetry_yields_two_transforms() {
    let t = asym_tile(Symmetry::X);
    let ts = t.generate_transforms();
    assert_eq!(ts.len(), 2);
    assert_eq!(ts[0], vec![vec![1, 2], vec![3, 4]]);
    assert_eq!(ts[1], vec![vec![2, 1], vec![4, 3]]);
}

#[test]
fn t_i_f_and_slash_symmetry_counts() {
    assert_eq!(asym_tile(Symmetry::T).generate_transforms().len(), 3);
    assert_eq!(asym_tile(Symmetry::I).generate_transforms().len(), 2);
    assert_eq!(asym_tile(Symmetry::BackSlash).generate_transforms().len(), 2);
    assert_eq!(asym_tile(Symmetry::ForwardSlash).generate_transforms().len(), 1);
    assert_eq!(asym_tile(Symmetry::F).generate_transforms().len(), 5);
}

#[test]
fn tile_new_keeps_fields() {
    let t = Tile::new(9, String::from("peak"), vec![vec![7]], Symmetry::T, 3);
    assert_eq!(t.id, 9);
    assert_eq!(t.name, "peak");
    assert_eq!(t.bitmap, vec![vec![7]]);
    assert_eq!(t.weight, 3);
    assert!(matches!(t.symmetry, Symmetry::T));
}
