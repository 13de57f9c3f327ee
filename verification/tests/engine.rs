use wfc::ConnectionRules;
use wfc::Direction;
use wfc::Grid;
use wfc::RandomSource;
use wfc::SeededRandom;
use wfc::ThreadRandom;
use wfc::Tile;
use wfc::TileCollection;
use wfc::WfcError;

fn rules(weight: usize, up: &str, down: &str, left: &str, right: &str) -> ConnectionRules {
    ConnectionRules {
        weight,
        up: up.to_string(),
        down: down.to_string(),
        left: left.to_string(),
        right: right.to_string(),
    }
}

fn entry(name: &str, r: ConnectionRules) -> (String, ConnectionRules) {
    (name.to_string(), r)
}

fn uniform(name: &str, weight: usize, label: &str) -> (String, ConnectionRules) {
    entry(name, rules(weight, label, label, label, label))
}

#[test]
fn opposite_pairs() {
    assert_eq!(Direction::Up.opposite(), Direction::Down);
    assert_eq!(Direction::Down.opposite(), Direction::Up);
    assert_eq!(Direction::Left.opposite(), Direction::Right);
    assert_eq!(Direction::Right.opposite(), Direction::Left);
}

#[test]
fn rules_get_labels() {
    let r = rules(3, "u", "d", "l", "r");
    assert_eq!(r.get(&Direction::Up), "u");
    assert_eq!(r.get(&Direction::Down), "d");
    assert_eq!(r.get(&Direction::Left), "l");
    assert_eq!(r.get(&Direction::Right), "r");
}

#[test]
fn tile_accessors() {
    let tiles = TileCollection::new(vec![
        entry("a", rules(1, "ua", "da", "la", "ra")),
        entry("b", rules(2, "ub", "db", "lb", "rb")),
    ]);
    assert_eq!(tiles.entropy(), 2);
    let open = Tile::new(tiles);
    assert!(open.is_wave());
    assert_eq!(open.candidate_count(), 2);
    assert_eq!(open.get_tiles(), vec!["a".to_string(), "b".to_string()]);
    assert_eq!(
        open.get_sockets_for(&Direction::Left),
        vec!["la".to_string(), "lb".to_string()]
    );

    let done = Tile::Collapsed("a".to_string(), rules(1, "ua", "da", "la", "ra"));
    assert!(!done.is_wave());
    assert_eq!(done.candidate_count(), 1);
    assert_eq!(done.get_tiles(), vec!["a".to_string()]);
    assert_eq!(done.get_sockets_for(&Direction::Up), vec!["ua".to_string()]);
}

#[test]
fn select_weighted_blocks() {
    let entries = vec![uniform("light", 1, "m"), uniform("heavy", 3, "m")];
    assert_eq!(wfc::tiles::total_tickets(&entries), 4);
    assert_eq!(wfc::tiles::select_weighted(&entries, 0), 0);
    assert_eq!(wfc::tiles::select_weighted(&entries, 1), 1);
    assert_eq!(wfc::tiles::select_weighted(&entries, 2), 1);
    assert_eq!(wfc::tiles::select_weighted(&entries, 3), 1);
}

#[test]
fn collapse_already_resolved() {
    let mut rng = SeededRandom::new(7);
    let mut done = Tile::Collapsed("a".to_string(), rules(1, "u", "d", "l", "r"));
    assert_eq!(done.collapse(&mut rng), Err(WfcError::AlreadyResolved));
    assert!(!done.is_wave());
}

#[test]
fn collapse_empty_wave() {
    let mut rng = SeededRandom::new(7);
    let mut empty = Tile::new(TileCollection::new(vec![]));
    assert_eq!(empty.collapse(&mut rng), Err(WfcError::EmptyWave));
    assert!(empty.is_wave());
    assert_eq!(empty.candidate_count(), 0);
}

#[test]
fn collapse_picks_a_candidate() {
    for seed in 0..32 {
        let mut rng = SeededRandom::new(seed);
        let mut open = Tile::new(TileCollection::new(vec![
            uniform("a", 2, "m"),
            uniform("b", 5, "m"),
            uniform("c", 1, "m"),
        ]));
        let (name, picked) = open.collapse(&mut rng).expect("non-empty wave collapses");
        assert!(name == "a" || name == "b" || name == "c");
        assert!(!open.is_wave());
        assert_eq!(open.get_tiles(), vec![name.clone()]);
        assert_eq!(
            open.get_sockets_for(&Direction::Up),
            vec![picked.up.clone()]
        );
    }
}

#[test]
fn weighted_ratio_approaches_weights() {
    // weights 1 and 3: over many draws the heavy tile should win about
    // three times out of four
    let mut rng = SeededRandom::new(2024);
    let mut heavy = 0usize;
    let trials = 4000usize;
    for _ in 0..trials {
        let mut open = Tile::new(TileCollection::new(vec![
            uniform("light", 1, "m"),
            uniform("heavy", 3, "m"),
        ]));
        let (name, _) = open.collapse(&mut rng).unwrap();
        if name == "heavy" {
            heavy += 1;
        }
    }
    assert!(heavy > 2700, "heavy won only {} of {}", heavy, trials);
    assert!(heavy < 3300, "heavy won {} of {}", heavy, trials);
}

#[test]
fn retain_filters_candidates() {
    let mut open = Tile::new(TileCollection::new(vec![
        entry("a", rules(1, "u", "d", "x", "r")),
        entry("b", rules(1, "u", "d", "y", "r")),
        entry("c", rules(1, "u", "d", "x", "r")),
    ]));
    let allowed = vec!["x".to_string()];
    let changed = open.retain_if_labels_match(&Direction::Left, &allowed);
    assert!(changed);
    assert_eq!(open.get_tiles(), vec!["a".to_string(), "c".to_string()]);

    // nothing more to remove: a second pass reports no change
    let changed_again = open.retain_if_labels_match(&Direction::Left, &allowed);
    assert!(!changed_again);
    assert_eq!(open.candidate_count(), 2);

    // a resolved cell is left alone
    let mut done = Tile::Collapsed("a".to_string(), rules(1, "u", "d", "x", "r"));
    let touched = done.retain_if_labels_match(&Direction::Left, &vec!["z".to_string()]);
    assert!(!touched);
    assert_eq!(done.get_tiles(), vec!["a".to_string()]);
}

#[test]
fn thread_random_stays_below_bound() {
    let mut rng = ThreadRandom::new();
    assert_eq!(rng.random_below(1), 0);
    for _ in 0..200 {
        assert!(rng.random_below(7) < 7);
    }
}

#[test]
fn seeded_random_stays_below_bound() {
    let mut rng = SeededRandom::new(99);
    for bound in 1..40 {
        assert!(rng.random_below(bound) < bound);
    }
}

#[test]
fn tick_out_of_bounds_is_rejected() {
    let tiles = TileCollection::new(vec![uniform("grass", 1, "m")]);
    let mut grid = Grid::new(tiles, 2, 2);
    let mut rng = SeededRandom::new(1);
    assert_eq!(
        grid.tick_in_area(0, 3, 0, 2, &mut rng),
        Err(WfcError::OutOfBounds)
    );
    assert_eq!(
        grid.tick_in_area(0, 2, 0, 5, &mut rng),
        Err(WfcError::OutOfBounds)
    );
    assert_eq!(grid.1, 0);
}

#[test]
fn find_lowest_entropy_returns_a_minimum() {
    // column 0 holds a 3-candidate and a 2-candidate cell, column 1 a
    // resolved cell and a 4-candidate cell: the 2-candidate cell wins
    let three = Tile::new(TileCollection::new(vec![
        uniform("a", 1, "m"),
        uniform("b", 1, "m"),
        uniform("c", 1, "m"),
    ]));
    let two = Tile::new(TileCollection::new(vec![
        uniform("a", 1, "m"),
        uniform("b", 1, "m"),
    ]));
    let four = Tile::new(TileCollection::new(vec![
        uniform("a", 1, "m"),
        uniform("b", 1, "m"),
        uniform("c", 1, "m"),
        uniform("d", 1, "m"),
    ]));
    let done = Tile::Collapsed("a".to_string(), rules(1, "m", "m", "m", "m"));
    let grid = Grid(vec![vec![three, two], vec![done, four]], 1);
    for seed in 0..16 {
        let mut rng = SeededRandom::new(seed);
        let found = grid.find_lowest_entropy(0, 2, 0, 2, &mut rng);
        assert_eq!(found, Some((0, 1)));
    }
}

#[test]
fn find_lowest_entropy_empty_region() {
    let done = Tile::Collapsed("a".to_string(), rules(1, "m", "m", "m", "m"));
    let grid = Grid(vec![vec![done.duplicate()], vec![done]], 2);
    let mut rng = SeededRandom::new(5);
    assert_eq!(grid.find_lowest_entropy(0, 2, 0, 1, &mut rng), None);
}

#[test]
fn neighbours_skip_edges_and_resolved() {
    let open = Tile::new(TileCollection::new(vec![uniform("a", 1, "m")]));
    let done = Tile::Collapsed("a".to_string(), rules(1, "m", "m", "m", "m"));
    // 2 x 2 grid, cell (1, 0) resolved
    let grid = Grid(
        vec![vec![open.duplicate(), open.duplicate()], vec![done, open]],
        1,
    );
    let ns = grid.get_neighbours(0, 0);
    // only the open neighbour above remains: (0, 1), whose Down edge faces us
    assert_eq!(ns.len(), 1);
    assert_eq!(ns[0], (0, 1, Direction::Down));
}
