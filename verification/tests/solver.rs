use std::collections::HashMap;

use wave_collapse::catalog::add_tile;
use wave_collapse::grid::Cell;
use wave_collapse::grid::ContradictionError;
use wave_collapse::grid::Grid;
use wave_collapse::grid::GridConstructionError;
use wave_collapse::grid::RunOutcome;
use wave_collapse::grid::catalog_covered;
use wave_collapse::ruleset::get_ruleset;
use wave_collapse::tile::Symmetry;
use wave_collapse::tile::Tile;

/// The four-tile catalog of the scenarios: tile `k` carries the 1x1 bitmap
/// whose single pixel is `k`, so the coarse pixel test against a resolved
/// neighbor `k` is exactly `rules[v].contains(k)`.
fn four_tile_catalog() -> (Vec<Tile>, HashMap<usize, Vec<Vec<Vec<i32>>>>) {
    let mut tiles: Vec<Tile> = Vec::new();
    let mut transforms: HashMap<usize, Vec<Vec<Vec<i32>>>> = HashMap::new();
    for k in 1..=4usize {
        let tile = Tile::new(
            k,
            format!("tile{}", k),
            vec![vec![k as i32]],
            Symmetry::X,
            0,
        );
        add_tile(&mut tiles, &mut transforms, tile);
    }
    (tiles, transforms)
}

fn scenario_ruleset() -> HashMap<usize, Vec<usize>> {
    let mut rules = HashMap::new();
    rules.insert(1, vec![1, 2, 3]);
    rules.insert(2, vec![1, 2]);
    rules.insert(3, vec![1, 3, 4]);
    rules.insert(4, vec![3, 4]);
    rules
}

#[test]
fn shipped_ruleset_contents() {
    let rules = get_ruleset();
    assert_eq!(rules.len(), 6);
    assert_eq!(rules[&1], vec![1, 2, 3]);
    assert_eq!(rules[&2], vec![1, 2, 3]);
    assert_eq!(rules[&3], vec![1, 2, 3, 4]);
    assert_eq!(rules[&4], vec![1, 3, 4, 5]);
    assert_eq!(rules[&5], vec![4, 5, 6]);
    assert_eq!(rules[&6], vec![5, 6]);
}

#[test]
fn empty_catalog_is_fatal() {
    let rules = scenario_ruleset();
    let r = Grid::new(3, Vec::new(), rules, HashMap::new());
    assert!(matches!(r, Err(GridConstructionError::EmptyCatalog)));
}

#[test]
fn fresh_grid_starts_with_full_candidate_sets() {
    let (tiles, transforms) = four_tile_catalog();
    let rules = scenario_ruleset();
    assert!(catalog_covered(&tiles, &rules, &transforms));
    let g = Grid::new(3, tiles, rules, transforms).unwrap();
    assert_eq!(g.size, 3);
    assert!(!g.initial_collapse_done);
    assert_eq!(g.cells.len(), 9);
    for cell in &g.cells {
        assert!(cell.value.is_none());
        assert_eq!(cell.candidates, vec![1, 2, 3, 4]);
    }
    assert!(!g.has_contradiction());
    assert!(!g.is_fully_collapsed());
}

#[test]
fn entropy_counts_candidates_and_honors_the_sentinel() {
    let (tiles, transforms) = four_tile_catalog();
    let rules = scenario_ruleset();
    let mut g = Grid::new(2, tiles, rules, transforms).unwrap();
    assert_eq!(g.entropy(0, 0), 4);
    g.cells[0] = Cell { value: Some(3), candidates: vec![3] };
    assert_eq!(g.entropy(0, 0), 0);
    g.cells[1] = Cell { value: Some(0), candidates: vec![0] };
    assert_eq!(g.entropy(0, 1), usize::MAX);
}

#[test]
fn scenario_one_by_one_collapses_in_a_single_call() {
    let (tiles, transforms) = four_tile_catalog();
    let rules = scenario_ruleset();
    let mut g = Grid::new(1, tiles, rules, transforms).unwrap();
    let report = g.run();
    assert_eq!(report.outcome, RunOutcome::FullyCollapsed);
    assert_eq!(report.collapse_calls, 1);
    assert!(g.is_fully_collapsed());
    let v = g.cell_value(0, 0).unwrap();
    assert!((1..=4).contains(&v));
    assert_eq!(g.cell_candidates(0, 0), &vec![v]);
}

#[test]
fn scenario_center_collapse_shrinks_a_neighbor() {
    let (tiles, transforms) = four_tile_catalog();
    let rules = scenario_ruleset();
    let mut g = Grid::new(3, tiles, rules.clone(), transforms).unwrap();
    // the mandatory first collapse resolves the center cell
    assert!(g.collapse());
    assert!(g.initial_collapse_done);
    let c = g.cell_value(1, 1).unwrap();
    assert!((1..=4).contains(&c));
    assert!(g.propagate().is_ok());
    // the center cell itself is untouched by propagation
    assert_eq!(g.cell_value(1, 1), Some(c));
    assert_eq!(g.cell_candidates(1, 1), &vec![c]);
    let compatible_with_all = (1..=4usize).all(|v| rules[&v].contains(&c));
    let neighbors = [(0usize, 1usize), (2, 1), (1, 0), (1, 2)];
    if !compatible_with_all {
        assert!(
            neighbors
                .iter()
                .any(|&(x, y)| g.cell_candidates(x, y).len() < 4)
        );
    }
    // with this ruleset no id is compatible with all four, so the check bites
    assert!(!compatible_with_all);
}

#[test]
fn scenario_contradiction_reports_the_exact_coordinate() {
    let (tiles, transforms) = four_tile_catalog();
    // 4 resolved next to a neighbor whose only candidate is 1, with
    // 1 not allowed next to 4: rules[1] = [3] only
    let mut rules = HashMap::new();
    rules.insert(1, vec![3]);
    rules.insert(2, vec![1, 2, 3, 4]);
    rules.insert(3, vec![3, 4]);
    rules.insert(4, vec![3, 4]);
    let mut g = Grid::new(3, tiles, rules, transforms).unwrap();
    // center already resolved to 4; the one-shot collapse already spent
    g.cells[1 * 3 + 1] = Cell { value: Some(4), candidates: vec![4] };
    g.initial_collapse_done = true;
    // (0,0) is the next collapse target; it survives next to the center
    g.cells[0] = Cell { value: None, candidates: vec![3] };
    // (0,1) can only be 1, which the resolved center forbids
    g.cells[1] = Cell { value: None, candidates: vec![1] };
    // (1,0) survives both the center and (0,0)
    g.cells[1 * 3 + 0] = Cell { value: None, candidates: vec![3] };
    let report = g.run();
    assert_eq!(
        report.outcome,
        RunOutcome::Contradiction(ContradictionError { x: 0, y: 1 })
    );
    assert_eq!(report.collapse_calls, 1);
    // the offending cell is left unresolved and emptied, and the run stopped
    assert!(g.cell_value(0, 1).is_none());
    assert!(g.cell_candidates(0, 1).is_empty());
    assert!(g.has_contradiction());
    assert!(!g.is_fully_collapsed());
    // the collapse that did happen resolved (0,0) to its only candidate
    assert_eq!(g.cell_value(0, 0), Some(3));
}

#[test]
fn repeated_propagation_changes_nothing_further() {
    let (tiles, transforms) = four_tile_catalog();
    let rules = scenario_ruleset();
    let mut g = Grid::new(3, tiles, rules, transforms).unwrap();
    assert!(g.collapse());
    assert!(g.propagate().is_ok());
    let c = g.cell_value(1, 1);
    let lens: Vec<usize> = (0..3)
        .flat_map(|x| (0..3).map(move |y| (x, y)))
        .map(|(x, y)| g.cell_candidates(x, y).len())
        .collect();
    // a second pass against the same resolved cells removes nothing more,
    // and the resolved center is untouched
    assert!(g.propagate().is_ok());
    assert_eq!(g.cell_value(1, 1), c);
    let lens_after: Vec<usize> = (0..3)
        .flat_map(|x| (0..3).map(move |y| (x, y)))
        .map(|(x, y)| g.cell_candidates(x, y).len())
        .collect();
    assert_eq!(lens, lens_after);
}

#[test]
fn run_terminates_within_the_cell_budget() {
    let (tiles, transforms) = four_tile_catalog();
    // every id may sit next to every id: no contradiction possible
    let mut rules = HashMap::new();
    for v in 1..=4usize {
        rules.insert(v, vec![1, 2, 3, 4]);
    }
    let mut g = Grid::new(5, tiles, rules, transforms).unwrap();
    let report = g.run();
    assert_eq!(report.outcome, RunOutcome::FullyCollapsed);
    assert!(report.collapse_calls <= 25);
    assert!(g.is_fully_collapsed());
    for x in 0..5 {
        for y in 0..5 {
            let v = g.cell_value(x, y).unwrap();
            assert!((1..=4).contains(&v));
        }
    }
}

#[test]
fn shipped_ruleset_run_respects_adjacency() {
    // six tiles whose 1x1 bitmaps carry their own id, against the shipped
    // ruleset: whichever of two adjacent cells resolved second survived the
    // other's filter, so one direction of the adjacency table always holds
    let mut tiles: Vec<Tile> = Vec::new();
    let mut transforms: HashMap<usize, Vec<Vec<Vec<i32>>>> = HashMap::new();
    for k in 1..=6usize {
        let tile = Tile::new(
            k,
            format!("tile{}", k),
            vec![vec![k as i32]],
            Symmetry::X,
            0,
        );
        add_tile(&mut tiles, &mut transforms, tile);
    }
    let rules = get_ruleset();
    assert!(catalog_covered(&tiles, &rules, &transforms));
    let mut g = Grid::new(5, tiles, rules.clone(), transforms).unwrap();
    let report = g.run();
    assert!(report.collapse_calls <= 25);
    match report.outcome {
        RunOutcome::FullyCollapsed => {
            assert!(g.is_fully_collapsed());
            for x in 0..5usize {
                for y in 0..5usize {
                    let v = g.cell_value(x, y).unwrap();
                    for (nx, ny) in [(x + 1, y), (x, y + 1)] {
                        if nx < 5 && ny < 5 {
                            let w = g.cell_value(nx, ny).unwrap();
                            assert!(
                                rules[&v].contains(&w) || rules[&w].contains(&v),
                                "resolved neighbors {} and {} are incompatible",
                                v,
                                w
                            );
                        }
                    }
                }
            }
        }
        RunOutcome::Contradiction(e) => {
            assert!(e.x < 5 && e.y < 5);
            assert!(g.cell_value(e.x, e.y).is_none());
            assert!(g.cell_candidates(e.x, e.y).is_empty());
        }
    }
}

#[test]
fn single_candidate_collapse_is_deterministic() {
    // a random index below 1 can only be 0: the lone candidate must win
    let mut tiles: Vec<Tile> = Vec::new();
    let mut transforms: HashMap<usize, Vec<Vec<Vec<i32>>>> = HashMap::new();
    add_tile(
        &mut tiles,
        &mut transforms,
        Tile::new(7, String::from("seven"), vec![vec![7]], Symmetry::X, 0),
    );
    let mut rules = HashMap::new();
    rules.insert(7, vec![7]);
    let mut g = Grid::new(1, tiles, rules, transforms).unwrap();
    let report = g.run();
    assert_eq!(report.outcome, RunOutcome::FullyCollapsed);
    assert_eq!(g.cell_value(0, 0), Some(7));
}

#[test]
fn id_to_name_names_the_six_tiles() {
    let (tiles, transforms) = four_tile_catalog();
    let g = Grid::new(1, tiles, scenario_ruleset(), transforms).unwrap();
    assert_eq!(g.id_to_name(1), "plains");
    assert_eq!(g.id_to_name(2), "forest");
    assert_eq!(g.id_to_name(3), "mountains");
    assert_eq!(g.id_to_name(4), "dessert");
    assert_eq!(g.id_to_name(5), "shore");
    assert_eq!(g.id_to_name(6), "ocean");
}

#[test]
fn render_text_prints_values_row_by_row() {
    let (tiles, transforms) = four_tile_catalog();
    let rules = scenario_ruleset();
    let mut g = Grid::new(2, tiles, rules, transforms).unwrap();
    g.cells[2 * 1 + 0] = Cell { value: Some(12), candidates: vec![12] };
    let text = g.render_text();
    assert_eq!(text, "None None \nSome(12) None \n");
}

#[test]
fn catalog_covered_spots_missing_entries() {
    let (tiles, transforms) = four_tile_catalog();
    let mut rules = scenario_ruleset();
    assert!(catalog_covered(&tiles, &rules, &transforms));
    rules.remove(&2);
    assert!(!catalog_covered(&tiles, &rules, &transforms));
}

#[test]
fn add_tile_caches_the_transform_set() {
    let mut tiles: Vec<Tile> = Vec::new();
    let mut transforms: HashMap<usize, Vec<Vec<Vec<i32>>>> = HashMap::new();
    let tile = Tile::new(
        3,
        String::from("ridge"),
        vec![vec![1, 2], vec![3, 4]],
        Symmetry::I,
        0,
    );
    let count = add_tile(&mut tiles, &mut transforms, tile);
    assert_eq!(count, 1);
    assert_eq!(tiles.len(), 1);
    assert_eq!(
        transforms[&3],
        vec![vec![vec![1, 2], vec![3, 4]], vec![vec![3, 1], vec![4, 2]]]
    );
}
