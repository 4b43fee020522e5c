use life::game::Game;
use life::world::World;

// ---- Bounded board -------------------------------------------------------

#[test]
fn iter() {
    let g = Game::new(1, 1);
    assert!(g.iter((0, 0)).len() == 0);

    let g = Game::new(2, 2);
    let mut it = g.iter((0, 0)).into_iter();
    assert!(it.next() == Some((0, 1)));
    assert!(it.next() == Some((1, 0)));
    assert!(it.next() == Some((1, 1)));
    assert!(it.next() == None);

    let g = Game::new(3, 3);
    let mut it = g.iter((1, 1)).into_iter();
    assert!(it.next() == Some((0, 0)));
    assert!(it.next() == Some((0, 1)));
    assert!(it.next() == Some((0, 2)));
    assert!(it.next() == Some((1, 0)));
    assert!(it.next() == Some((1, 2)));
    assert!(it.next() == Some((2, 0)));
    assert!(it.next() == Some((2, 1)));
    assert!(it.next() == Some((2, 2)));
    assert!(it.next() == None);
}

#[test]
fn lib_lone_block() {
    let mut g = Game::new(1, 1);
    g.set(0, 0);

    let it = g.live_cells();
    assert!([(0, 0)].iter().eq(it.iter()));

    g.step();
    let it = g.live_cells();
    assert!(it.len() == 0);
}

#[test]
fn triplet() {
    let mut g = Game::new(3, 3);
    g.set(1, 0);
    g.set(1, 1);
    g.set(1, 2);

    let it = g.live_cells();
    assert!([(1, 0), (1, 1), (1, 2)].iter().eq(it.iter()));

    g.step();
    let it = g.live_cells();
    assert!([(0, 1), (1, 1), (2, 1)].iter().eq(it.iter()));

    g.step();
    let it = g.live_cells();
    assert!([(1, 0), (1, 1), (1, 2)].iter().eq(it.iter()));
}

#[test]
fn game_set_off_board_is_ignored() {
    let mut g = Game::new(3, 3);
    g.set(3, 0);
    g.set(0, 3);
    g.set(9, 9);
    assert!(g.live_cells().len() == 0);

    g.set(2, 2);
    assert!([(2, 2)].iter().eq(g.live_cells().iter()));
}

#[test]
fn game_block_is_fixed_point() {
    let mut g = Game::new(4, 4);
    g.set(1, 1);
    g.set(2, 1);
    g.set(1, 2);
    g.set(2, 2);

    for _ in 0..3 {
        g.step();
        let it = g.live_cells();
        assert!([(1, 1), (1, 2), (2, 1), (2, 2)].iter().eq(it.iter()));
    }
}

#[test]
fn game_corner_block_is_fixed_point() {
    let mut g = Game::new(5, 5);
    g.set(0, 0);
    g.set(1, 0);
    g.set(0, 1);
    g.set(1, 1);

    g.step();
    let it = g.live_cells();
    assert!([(0, 0), (0, 1), (1, 0), (1, 1)].iter().eq(it.iter()));
}

#[test]
fn game_neighbours_counts_exactly() {
    let mut g = Game::new(3, 3);
    for x in 0..3 {
        for y in 0..3 {
            g.set(x, y);
        }
    }
    // The centre sees all eight, a corner only its three on-board ones.
    assert!(g.neighbours((1, 1)) == 8);
    assert!(g.neighbours((0, 0)) == 3);
    assert!(g.neighbours((2, 0)) == 3);
    assert!(g.neighbours((1, 0)) == 5);
}

// ---- Unbounded board -----------------------------------------------------

#[test]
fn world_lone_block() {
    let mut w = World::new();
    w.set(0, 0);

    assert!(w.live_cells().len() == 1);
    assert!(w.is_set(0, 0));

    w.step();
    assert!(w.live_cells().len() == 0);
}

#[test]
fn blinker() {
    let mut w = World::new();
    w.set(0, -1);
    w.set(0, 0);
    w.set(0, 1);

    assert!(w.live_cells().len() == 3);
    assert!([(0, -1), (0, 0), (0, 1)].iter().all(|(x, y)| w.is_set(*x, *y)));

    w.step();

    assert!(w.live_cells().len() == 3);
    assert!([(-1, 0), (0, 0), (1, 0)].iter().all(|(x, y)| w.is_set(*x, *y)));

    w.step();
    assert!(w.live_cells().len() == 3);
    assert!([(0, -1), (0, 0), (0, 1)].iter().all(|(x, y)| w.is_set(*x, *y)));
}

#[test]
fn glider() {
    let mut w = World::new();
    w.set(1, 0);
    w.set(2, 1);
    w.set(0, 2);
    w.set(1, 2);
    w.set(2, 2);

    assert!(w.live_cells().len() == 5);
    assert!([(1, 0), (2, 1), (0, 2), (1, 2), (2, 2)]
        .iter()
        .all(|(x, y)| w.is_set(*x, *y)));

    w.step();
    assert!(w.live_cells().len() == 5);
    assert!([(0, 1), (2, 1), (1, 2), (2, 2), (1, 3)]
        .iter()
        .all(|(x, y)| w.is_set(*x, *y)));

    w.step();
    assert!(w.live_cells().len() == 5);
    assert!([(2, 1), (0, 2), (2, 2), (1, 3), (2, 3)]
        .iter()
        .all(|(x, y)| w.is_set(*x, *y)));

    w.step();
    assert!(w.live_cells().len() == 5);
    assert!([(1, 1), (2, 2), (3, 2), (1, 3), (2, 3)]
        .iter()
        .all(|(x, y)| w.is_set(*x, *y)));

    w.step();
    assert!(w.live_cells().len() == 5);
    assert!([(2, 1), (3, 2), (1, 3), (2, 3), (3, 3)]
        .iter()
        .all(|(x, y)| w.is_set(*x, *y)));
}

#[test]
fn world_block_is_fixed_point() {
    let mut w = World::new();
    w.set(0, 0);
    w.set(1, 0);
    w.set(0, 1);
    w.set(1, 1);

    for _ in 0..3 {
        w.step();
        let it = w.live_cells();
        assert!([(0, 0), (0, 1), (1, 0), (1, 1)].iter().eq(it.iter()));
    }
}

#[test]
fn world_set_unset_reset() {
    let mut w = World::new();
    w.set(5, -7);
    w.set(5, -7);
    assert!(w.live_cells().len() == 1);
    assert!(w.is_set(5, -7));

    w.unset(5, -7);
    assert!(!w.is_set(5, -7));
    assert!(w.live_cells().len() == 0);

    w.unset(5, -7);
    assert!(w.live_cells().len() == 0);

    w.set(1, 2);
    w.set(3, 4);
    w.reset();
    assert!(w.live_cells().len() == 0);
    assert!(!w.is_set(1, 2));
    assert!(!w.is_set(3, 4));
}

#[test]
fn world_live_cells_are_ascending() {
    let mut w = World::new();
    w.set(2, 1);
    w.set(-3, 9);
    w.set(0, 0);
    w.set(0, -5);
    w.set(2, 0);

    let v = w.live_cells();
    assert!([(-3, 9), (0, -5), (0, 0), (2, 0), (2, 1)].iter().eq(v.iter()));
}

#[test]
fn world_count_neighbours_counts_exactly() {
    let mut w = World::new();
    for x in -1..=1 {
        for y in -1..=1 {
            w.set(x, y);
        }
    }
    assert!(w.count_neighbours((0, 0)) == 8);
    assert!(w.count_neighbours((1, 1)) == 3);
    assert!(w.count_neighbours((2, 2)) == 1);
    assert!(w.count_neighbours((3, 3)) == 0);
}

#[test]
fn world_blinker_wraps_at_the_integer_edge() {
    // A vertical blinker whose three cells are consecutive across the
    // wrapping boundary of the coordinate range.
    let mut w = World::new();
    w.set(0, isize::MAX);
    w.set(0, isize::MIN);
    w.set(0, isize::MIN + 1);

    w.step();
    assert!(w.live_cells().len() == 3);
    assert!(w.is_set(-1, isize::MIN));
    assert!(w.is_set(0, isize::MIN));
    assert!(w.is_set(1, isize::MIN));

    w.step();
    assert!(w.live_cells().len() == 3);
    assert!(w.is_set(0, isize::MAX));
    assert!(w.is_set(0, isize::MIN));
    assert!(w.is_set(0, isize::MIN + 1));
}
