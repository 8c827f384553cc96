use rust_of_life::life::{is_alive, new_status, InvalidCharacterError, Loc, World};

/// Every tracked coordinate that is alive in the current generation.
fn alive_cells(w: &World) -> Vec<Loc> {
    let mut r: Vec<Loc> = Vec::new();
    for l in w.current_buffer().keys() {
        if w.get(&l) {
            r.push(l);
        }
    }
    r.sort_by_key(|l| (l.row, l.col));
    r
}

fn locs(pairs: &[(i64, i64)]) -> Vec<Loc> {
    let mut r: Vec<Loc> = pairs.iter().map(|&(a, b)| Loc::new(a, b)).collect();
    r.sort_by_key(|l| (l.row, l.col));
    r
}

#[test]
fn rule_table() {
    for count in 0..=8usize {
        assert_eq!(new_status(true, count), count == 2 || count == 3);
        assert_eq!(new_status(false, count), count == 3);
    }
}

#[test]
fn neighbors_are_row_major() {
    let n = Loc::new(5, 7).neighbors();
    let expected = [
        (4, 6),
        (4, 7),
        (4, 8),
        (5, 6),
        (5, 8),
        (6, 6),
        (6, 7),
        (6, 8),
    ];
    for k in 0..8 {
        assert_eq!((n[k].row, n[k].col), expected[k]);
    }
}

#[test]
fn neighbors_wrap_at_extremes() {
    let n = Loc::new(i64::MIN, i64::MAX).neighbors();
    assert_eq!((n[0].row, n[0].col), (i64::MAX, i64::MAX - 1));
    assert_eq!((n[2].row, n[2].col), (i64::MAX, i64::MIN));
    assert_eq!((n[7].row, n[7].col), (i64::MIN + 1, i64::MIN));
}

#[test]
fn missing_coordinates_read_dead() {
    let w = World::default();
    assert!(!w.get(&Loc::new(0, 0)));
    assert!(!w.get(&Loc::new(-1000, 1000)));
    assert_eq!(w.current_buffer().keys().len(), 0);
}

#[test]
fn set_expands_frontier() {
    let mut w = World::default();
    w.set(&Loc::new(0, 0), true);
    // Writes land in the next store, not the current one.
    assert!(!w.get(&Loc::new(0, 0)));
    let nxt = w.next_buffer();
    assert_eq!(nxt.lookup(&Loc::new(0, 0)), Some(true));
    for nb in Loc::new(0, 0).neighbors() {
        assert_eq!(nxt.lookup(&nb), Some(false));
    }
    assert_eq!(nxt.keys().len(), 9);
}

#[test]
fn set_dead_does_not_expand() {
    let mut w = World::default();
    w.set(&Loc::new(2, 3), false);
    let nxt = w.next_buffer();
    assert_eq!(nxt.lookup(&Loc::new(2, 3)), Some(false));
    assert_eq!(nxt.keys().len(), 1);
}

#[test]
fn set_overwrites() {
    let mut w = World::default();
    w.set(&Loc::new(0, 0), true);
    w.set(&Loc::new(0, 0), false);
    let nxt = w.next_buffer();
    assert_eq!(nxt.lookup(&Loc::new(0, 0)), Some(false));
    // The earlier frontier expansion stays.
    assert_eq!(nxt.keys().len(), 9);
}

#[test]
fn is_alive_reads_store() {
    let mut w = World::default();
    w.set(&Loc::new(1, 1), true);
    let nxt = w.next_buffer();
    assert!(is_alive(nxt, &Loc::new(1, 1)));
    assert!(!is_alive(nxt, &Loc::new(1, 2)));
    assert!(!is_alive(nxt, &Loc::new(9, 9)));
}

#[test]
fn isolated_cell_dies_after_one_step() {
    let mut w = World::from_configuration("*", '.', '*').unwrap();
    assert_eq!(alive_cells(&w), locs(&[(0, 0)]));
    w.step();
    assert_eq!(alive_cells(&w), locs(&[]));
    assert!(!w.get(&Loc::new(0, 0)));
}

#[test]
fn block_is_a_still_life() {
    let mut w = World::from_configuration("**\n**", '.', '*').unwrap();
    let block = locs(&[(0, -1), (0, 0), (1, -1), (1, 0)]);
    assert_eq!(alive_cells(&w), block);
    for _ in 0..5 {
        w.step();
        assert_eq!(alive_cells(&w), block);
    }
}

#[test]
fn blinker_has_period_two() {
    let mut w = World::from_configuration("***", '.', '*').unwrap();
    let horizontal = locs(&[(0, -1), (0, 0), (0, 1)]);
    let vertical = locs(&[(-1, 0), (0, 0), (1, 0)]);
    assert_eq!(alive_cells(&w), horizontal);
    w.step();
    assert_eq!(alive_cells(&w), vertical);
    assert_ne!(alive_cells(&w), horizontal);
    w.step();
    assert_eq!(alive_cells(&w), horizontal);
}

#[test]
fn step_keeps_the_frontier_tracked() {
    let mut w = World::from_configuration("***", '.', '*').unwrap();
    for _ in 0..3 {
        w.step();
        for l in alive_cells(&w) {
            for nb in l.neighbors() {
                assert!(w.current_buffer().lookup(&nb).is_some());
            }
        }
    }
}

#[test]
fn parse_plus_pattern() {
    let w = World::from_configuration(".*.\n***\n.*.", '.', '*').unwrap();
    let plus = locs(&[(-1, 0), (0, -1), (0, 0), (0, 1), (1, 0)]);
    assert_eq!(alive_cells(&w), plus);
    // Every alive coordinate has its whole neighborhood tracked.
    for l in &plus {
        for nb in l.neighbors() {
            assert!(w.current_buffer().lookup(&nb).is_some());
        }
    }
    // 9 grid cells plus the 12 frontier coordinates around the plus shape.
    assert_eq!(w.current_buffer().keys().len(), 21);
}

#[test]
fn parse_centers_by_last_row_width() {
    // Rows of differing length: columns are centered by the last row's width.
    let w = World::from_configuration("*\n***", '.', '*').unwrap();
    assert_eq!(alive_cells(&w), locs(&[(0, -1), (1, -1), (1, 0), (1, 1)]));
}

#[test]
fn parse_ignores_carriage_returns() {
    let a = World::from_configuration(".*\r\n*.", '.', '*').unwrap();
    let b = World::from_configuration(".*\n*.", '.', '*').unwrap();
    assert_eq!(alive_cells(&a), alive_cells(&b));
}

#[test]
fn parse_empty_text() {
    let w = World::from_configuration("", '.', '*').unwrap();
    assert_eq!(w.current_buffer().keys().len(), 0);
}

#[test]
fn parse_rejects_invalid_character() {
    let e = World::from_configuration(".*X", '.', '*').unwrap_err();
    assert_eq!(e, InvalidCharacterError { ch: 'X', row: 0, col: 2 });
}

#[test]
fn parse_reports_row_and_column() {
    let e = World::from_configuration("..\n.q", '.', '*').unwrap_err();
    assert_eq!(e, InvalidCharacterError { ch: 'q', row: 1, col: 1 });
    // Carriage returns are not counted as columns.
    let e = World::from_configuration("\r!", '.', '*').unwrap_err();
    assert_eq!(e, InvalidCharacterError { ch: '!', row: 0, col: 0 });
}

#[test]
fn parse_accepts_custom_sentinels() {
    let w = World::from_configuration("o#\n#o", 'o', '#').unwrap();
    assert_eq!(alive_cells(&w), locs(&[(0, 0), (1, -1)]));
}

#[test]
fn cloned_world_steps_independently() {
    let original = World::from_configuration("***", '.', '*').unwrap();
    let mut snapshot: Vec<(Loc, Option<bool>)> = Vec::new();
    for l in original.current_buffer().keys() {
        snapshot.push((l, original.current_buffer().lookup(&l)));
    }
    let mut copy = original.clone();
    for _ in 0..3 {
        copy.step();
    }
    let mut after: Vec<(Loc, Option<bool>)> = Vec::new();
    for l in original.current_buffer().keys() {
        after.push((l, original.current_buffer().lookup(&l)));
    }
    assert_eq!(snapshot, after);
    assert_ne!(alive_cells(&original), alive_cells(&copy));
}
