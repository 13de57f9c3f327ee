use wfc::ConnectionRules;
use wfc::Direction;
use wfc::Grid;
use wfc::SeededRandom;
use wfc::TileCollection;
use wfc::WfcError;

fn rules(weight: usize, up: &str, down: &str, left: &str, right: &str) -> ConnectionRules {
    ConnectionRules {
        weight,
        up: up.to_string(),
        down: down.to_string(),
        left: left.to_string(),
        right: right.to_string(),
    }
}

fn entry(name: &str, r: ConnectionRules) -> (String, ConnectionRules) {
    (name.to_string(), r)
}

fn uniform(name: &str, weight: usize, label: &str) -> (String, ConnectionRules) {
    entry(name, rules(weight, label, label, label, label))
}

fn count_resolved(grid: &Grid) -> usize {
    let mut n = 0;
    for col in grid.0.iter() {
        for cell in col.iter() {
            if !cell.is_wave() {
                n += 1;
            }
        }
    }
    n
}

#[test]
fn single_tile_grid_collapses_fully() {
    // one tile type: every cell must resolve to it, with no contradiction
    let tiles = TileCollection::new(vec![uniform("grass", 1, "misc")]);
    let mut grid = Grid::new(tiles, 2, 2);
    let mut rng = SeededRandom::new(11);
    assert_eq!(grid.collapse_all(&mut rng), Ok(4));
    assert_eq!(grid.1, 4);
    for x in 0..2 {
        for y in 0..2 {
            assert_eq!(grid.0[x][y].get_tiles(), vec!["grass".to_string()]);
        }
    }
    // nothing left to do
    assert_eq!(grid.tick(&mut rng), Ok(None));
}

#[test]
fn forced_neighbour_after_first_tick() {
    // two mutually incompatible types on a 1 x 2 grid: the first tick
    // forces the other cell, the second tick resolves it, never a
    // contradiction
    for seed in 0..32 {
        let tiles = TileCollection::new(vec![uniform("a", 1, "x"), uniform("b", 1, "y")]);
        let mut grid = Grid::new(tiles, 1, 2);
        let mut rng = SeededRandom::new(seed);
        let (x1, y1, first) = grid.tick(&mut rng).unwrap().unwrap();
        assert_eq!(x1, 0);
        let other = 1 - y1;
        assert!(grid.0[0][other].is_wave());
        assert_eq!(grid.0[0][other].candidate_count(), 1);
        assert_eq!(grid.0[0][other].get_tiles(), vec![first.clone()]);
        let (x2, y2, second) = grid.tick(&mut rng).unwrap().unwrap();
        assert_eq!((x2, y2), (0, other));
        assert_eq!(second, first);
        assert_eq!(grid.tick(&mut rng), Ok(None));
    }
}

#[test]
fn contradictions_surface_as_empty_wave() {
    // "a" goes with everything horizontally but "b" demands another "b"-edge
    // to its right and above, which no type offers on the facing side: some
    // first picks leave a neighbour with no candidate at all, and that must
    // surface as EmptyWave rather than be skipped
    let mut failures = 0;
    let mut successes = 0;
    for seed in 0..60 {
        let tiles = TileCollection::new(vec![
            uniform("a", 1, "x"),
            entry("b", rules(1, "y", "y", "x", "y")),
        ]);
        let mut grid = Grid::new(tiles, 3, 3);
        let mut rng = SeededRandom::new(seed);
        match grid.collapse_all(&mut rng) {
            Ok(n) => {
                assert_eq!(n, 9);
                successes += 1;
            }
            Err(e) => {
                assert_eq!(e, WfcError::EmptyWave);
                // the grid handed back exhibits the contradiction
                let mut found_empty = false;
                for col in grid.0.iter() {
                    for cell in col.iter() {
                        if cell.is_wave() && cell.candidate_count() == 0 {
                            found_empty = true;
                        }
                    }
                }
                assert!(found_empty);
                failures += 1;
            }
        }
    }
    assert!(failures > 0, "no seed reached the contradiction");
    assert_eq!(failures + successes, 60);
}

#[test]
fn area_tick_never_resolves_outside_rectangle() {
    // two types that agree everywhere: propagation removes nothing, and the
    // restricted tick may only resolve cells of the 2 x 2 corner
    let tiles = TileCollection::new(vec![uniform("a", 1, "m"), uniform("b", 1, "m")]);
    let mut grid = Grid::new(tiles, 4, 4);
    let mut rng = SeededRandom::new(3);
    for step in 0..4 {
        let (x, y, _) = grid.tick_in_area(0, 2, 0, 2, &mut rng).unwrap().unwrap();
        assert!(x < 2 && y < 2, "step {} resolved ({}, {})", step, x, y);
    }
    assert_eq!(grid.1, 4);
    for x in 0..4 {
        for y in 0..4 {
            let inside = x < 2 && y < 2;
            assert_eq!(grid.0[x][y].is_wave(), !inside);
        }
    }
    // the rectangle is exhausted, the rest of the grid untouched
    assert_eq!(grid.tick_in_area(0, 2, 0, 2, &mut rng), Ok(None));
    assert_eq!(grid.1, 4);
}

#[test]
fn candidate_counts_never_grow() {
    // vertical alternation, free horizontally: tick after tick, each cell
    // that is still open holds no more candidates than before
    let tiles = TileCollection::new(vec![
        entry("a", rules(1, "1", "2", "h", "h")),
        entry("b", rules(1, "2", "1", "h", "h")),
    ]);
    let mut grid = Grid::new(tiles, 3, 3);
    let mut rng = SeededRandom::new(17);
    loop {
        let before: Vec<Vec<Option<usize>>> = grid
            .0
            .iter()
            .map(|col| {
                col.iter()
                    .map(|c| if c.is_wave() { Some(c.candidate_count()) } else { None })
                    .collect()
            })
            .collect();
        match grid.tick(&mut rng).unwrap() {
            None => break,
            Some(_) => {
                for x in 0..3 {
                    for y in 0..3 {
                        if let Some(prev) = before[x][y] {
                            if grid.0[x][y].is_wave() {
                                assert!(grid.0[x][y].candidate_count() <= prev);
                            }
                        } else {
                            // a resolved cell never reopens
                            assert!(!grid.0[x][y].is_wave());
                        }
                    }
                }
            }
        }
    }
}

#[test]
fn each_tick_resolves_exactly_one_cell() {
    let tiles = TileCollection::new(vec![
        entry("a", rules(2, "1", "2", "h", "h")),
        entry("b", rules(1, "2", "1", "h", "h")),
    ]);
    let mut grid = Grid::new(tiles, 3, 2);
    let mut rng = SeededRandom::new(23);
    let mut done = 0;
    while let Some(_) = grid.tick(&mut rng).unwrap() {
        done += 1;
        assert_eq!(count_resolved(&grid), done);
        assert_eq!(grid.1, done);
    }
    assert_eq!(done, 6);
}

#[test]
fn collapse_all_takes_exactly_n_ticks() {
    let tiles = TileCollection::new(vec![uniform("grass", 3, "misc")]);
    let mut grid = Grid::new(tiles, 3, 3);
    let mut rng = SeededRandom::new(5);
    // two steps by hand, the rest in one call: 2 + 7 == 9
    assert!(grid.tick(&mut rng).unwrap().is_some());
    assert!(grid.tick(&mut rng).unwrap().is_some());
    assert_eq!(grid.collapse_all(&mut rng), Ok(7));
    assert_eq!(grid.1, 9);
}

#[test]
fn full_collapse_is_adjacency_consistent() {
    // vertical alternation, free horizontally: check every touching edge
    // after a full collapse
    for seed in 0..16 {
        let tiles = TileCollection::new(vec![
            entry("a", rules(1, "1", "2", "h", "h")),
            entry("b", rules(1, "2", "1", "h", "h")),
        ]);
        let mut grid = Grid::new(tiles, 4, 3);
        let mut rng = SeededRandom::new(seed);
        assert_eq!(grid.collapse_all(&mut rng), Ok(12));
        for x in 0..4 {
            for y in 0..3 {
                if x + 1 < 4 {
                    // the right edge of (x, y) touches the left edge of (x+1, y)
                    let a = grid.0[x][y].get_sockets_for(&Direction::Right);
                    let b = grid.0[x + 1][y].get_sockets_for(&Direction::Left);
                    assert_eq!(a, b);
                }
                if y + 1 < 3 {
                    // the up edge of (x, y) touches the down edge of (x, y+1)
                    let a = grid.0[x][y].get_sockets_for(&Direction::Up);
                    let b = grid.0[x][y + 1].get_sockets_for(&Direction::Down);
                    assert_eq!(a, b);
                }
            }
        }
    }
}

#[test]
fn thread_randomness_drives_a_full_run() {
    let tiles = TileCollection::new(vec![uniform("grass", 2, "misc"), uniform("moss", 1, "misc")]);
    let mut grid = Grid::new(tiles, 3, 3);
    let mut rng = wfc::ThreadRandom::new();
    assert_eq!(grid.collapse_all(&mut rng), Ok(9));
    for x in 0..3 {
        for y in 0..3 {
            let names = grid.0[x][y].get_tiles();
            assert_eq!(names.len(), 1);
            assert!(names[0] == "grass" || names[0] == "moss");
        }
    }
}

#[test]
fn propagation_shrinks_flooded_cells() {
    // two mutually incompatible types: the very first resolution floods the
    // whole grid down to a single candidate everywhere
    let tiles = TileCollection::new(vec![uniform("a", 1, "x"), uniform("b", 1, "y")]);
    let mut grid = Grid::new(tiles, 3, 3);
    let mut rng = SeededRandom::new(2);
    let (_, _, name) = grid.tick(&mut rng).unwrap().unwrap();
    for x in 0..3 {
        for y in 0..3 {
            assert_eq!(grid.0[x][y].get_tiles(), vec![name.clone()]);
        }
    }
    assert_eq!(grid.collapse_all(&mut rng), Ok(8));
}
