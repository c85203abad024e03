use key_pipeline::debounce::{Debouncer, KeyDebounce};
use key_pipeline::grid::{Coord, Direction, Event, RawGrid};

fn grid_with(rows: usize, cols: usize, closed: &[(usize, usize)]) -> RawGrid {
    let mut grid = RawGrid::released(rows, cols);
    for &(r, c) in closed {
        grid.set(r, c, true);
    }
    grid
}

fn press(row: usize, col: usize) -> Event {
    Event { coord: Coord { row, col }, direction: Direction::Press }
}

fn release(row: usize, col: usize) -> Event {
    Event { coord: Coord { row, col }, direction: Direction::Release }
}

#[test]
fn new_debouncer_is_idle() {
    let d = Debouncer::new(10, 8, 5);
    assert_eq!(d.rows(), 10);
    assert_eq!(d.cols(), 8);
    assert_eq!(d.cooldown_window(), 5);
    for r in 0..10 {
        for c in 0..8 {
            assert_eq!(d.cell(r, c), KeyDebounce { closed: false, cooldown: 0 });
        }
    }
}

#[test]
fn steady_open_matrix_yields_nothing() {
    let mut d = Debouncer::new(10, 8, 5);
    let grid = RawGrid::released(10, 8);
    for _ in 0..20 {
        assert_eq!(d.events(&grid), vec![]);
    }
}

#[test]
fn first_change_is_accepted_at_once() {
    let mut d = Debouncer::new(2, 2, 5);
    let events = d.events(&grid_with(2, 2, &[(0, 1)]));
    assert_eq!(events, vec![press(0, 1)]);
    assert_eq!(d.cell(0, 1), KeyDebounce { closed: true, cooldown: 5 });
    assert_eq!(d.cell(0, 0), KeyDebounce { closed: false, cooldown: 0 });
}

#[test]
fn bounce_in_the_window_yields_one_release() {
    let mut d = Debouncer::new(1, 1, 5);
    // The key goes down and settles.
    assert_eq!(d.events(&grid_with(1, 1, &[(0, 0)])), vec![press(0, 0)]);
    for _ in 0..5 {
        assert_eq!(d.events(&grid_with(1, 1, &[(0, 0)])), vec![]);
    }
    assert_eq!(d.cell(0, 0), KeyDebounce { closed: true, cooldown: 0 });
    // It opens, bounces four times and stays open.
    let samples = [false, true, false, true, false, false, false, false, false, false];
    let mut seen: Vec<Event> = Vec::new();
    for (tick, closed) in samples.iter().enumerate() {
        let grid = if *closed { grid_with(1, 1, &[(0, 0)]) } else { grid_with(1, 1, &[]) };
        let events = d.events(&grid);
        if tick == 0 {
            assert_eq!(events, vec![release(0, 0)]);
        } else {
            assert_eq!(events, vec![]);
        }
        seen.extend(events);
    }
    assert_eq!(seen, vec![release(0, 0)]);
    assert_eq!(d.cell(0, 0), KeyDebounce { closed: false, cooldown: 0 });
}

#[test]
fn cooldown_counts_down_by_one_per_scan() {
    let mut d = Debouncer::new(1, 1, 3);
    d.events(&grid_with(1, 1, &[(0, 0)]));
    assert_eq!(d.cell(0, 0).cooldown, 3);
    d.events(&grid_with(1, 1, &[]));
    assert_eq!(d.cell(0, 0).cooldown, 2);
    d.events(&grid_with(1, 1, &[(0, 0)]));
    assert_eq!(d.cell(0, 0).cooldown, 1);
    d.events(&grid_with(1, 1, &[]));
    assert_eq!(d.cell(0, 0), KeyDebounce { closed: true, cooldown: 0 });
}

#[test]
fn level_that_differs_after_the_window_is_reported_on_the_next_scan() {
    let mut d = Debouncer::new(1, 1, 2);
    assert_eq!(d.events(&grid_with(1, 1, &[(0, 0)])), vec![press(0, 0)]);
    // Two deaf scans, during which the contact has opened again.
    assert_eq!(d.events(&grid_with(1, 1, &[])), vec![]);
    assert_eq!(d.events(&grid_with(1, 1, &[])), vec![]);
    // The window is over: the open contact is a real change.
    assert_eq!(d.events(&grid_with(1, 1, &[])), vec![release(0, 0)]);
    assert_eq!(d.cell(0, 0), KeyDebounce { closed: false, cooldown: 2 });
}

#[test]
fn zero_window_accepts_every_change() {
    let mut d = Debouncer::new(1, 1, 0);
    assert_eq!(d.events(&grid_with(1, 1, &[(0, 0)])), vec![press(0, 0)]);
    assert_eq!(d.events(&grid_with(1, 1, &[])), vec![release(0, 0)]);
    assert_eq!(d.events(&grid_with(1, 1, &[(0, 0)])), vec![press(0, 0)]);
}

#[test]
fn events_come_in_row_major_order() {
    let mut d = Debouncer::new(3, 3, 5);
    let events = d.events(&grid_with(3, 3, &[(2, 0), (0, 2), (1, 1), (0, 0)]));
    assert_eq!(events, vec![press(0, 0), press(0, 2), press(1, 1), press(2, 0)]);
}

#[test]
fn switches_cool_down_independently() {
    let mut d = Debouncer::new(1, 2, 5);
    assert_eq!(d.events(&grid_with(1, 2, &[(0, 0)])), vec![press(0, 0)]);
    assert_eq!(d.events(&grid_with(1, 2, &[(0, 0), (0, 1)])), vec![press(0, 1)]);
    assert_eq!(d.cell(0, 0).cooldown, 4);
    assert_eq!(d.cell(0, 1).cooldown, 5);
}

#[test]
fn events_of_one_switch_alternate() {
    let mut d = Debouncer::new(1, 1, 1);
    let samples = [true, true, false, false, false, true, false, true, true, false, false];
    let mut last: Option<Direction> = None;
    for closed in samples {
        let grid = if closed { grid_with(1, 1, &[(0, 0)]) } else { grid_with(1, 1, &[]) };
        for event in d.events(&grid) {
            assert_ne!(Some(event.direction), last);
            last = Some(event.direction);
        }
    }
    assert_eq!(last, Some(Direction::Release));
}

#[test]
fn raw_grid_from_rows_checks_the_width() {
    assert!(RawGrid::from_rows(vec![vec![false, true], vec![true, false]], 2).is_some());
    assert!(RawGrid::from_rows(vec![vec![false, true], vec![true]], 2).is_none());
    assert!(RawGrid::from_rows(vec![], 3).is_some());
    let grid = RawGrid::from_rows(vec![vec![false, true], vec![true, false]], 2).unwrap();
    assert_eq!(grid.rows(), 2);
    assert_eq!(grid.cols(), 2);
    assert!(grid.get(0, 1));
    assert!(!grid.get(1, 1));
}

#[test]
fn raw_grid_set_changes_one_sample() {
    let mut grid = RawGrid::released(2, 3);
    grid.set(1, 2, true);
    for r in 0..2 {
        for c in 0..3 {
            assert_eq!(grid.get(r, c), (r, c) == (1, 2));
        }
    }
    grid.set(1, 2, false);
    assert!(!grid.get(1, 2));
}
