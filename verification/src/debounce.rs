//! Eager debouncing: the first change of a contact is accepted at once, and
//! the switch is then deaf for a fixed number of scans.

use vstd::prelude::*;
use crate::grid::{direction_of, rectangular, rows_of, Coord, Direction, Event, RawGrid};

verus! {

/// Debounce state of one switch.
#[derive(Clone, Copy, Debug, PartialEq, Eq, Structural)]
pub struct KeyDebounce {
    /// The contact state that was accepted last.
    pub closed: bool,
    /// Scans that are still to be ignored.
    pub cooldown: u16,
}

/// Whether a switch in state `cell` yields an event on reading `sample`.
pub open spec fn emits(cell: KeyDebounce, sample: bool) -> bool {
    cell.cooldown == 0 && sample != cell.closed
}

/// State of a switch after one scan that read `sample`.
pub open spec fn step(cell: KeyDebounce, sample: bool, window: u16) -> KeyDebounce {
    if cell.cooldown > 0 {
        KeyDebounce { closed: cell.closed, cooldown: (cell.cooldown - 1) as u16 }
    } else if sample != cell.closed {
        KeyDebounce { closed: sample, cooldown: window }
    } else {
        cell
    }
}

/// One row after one scan.
pub open spec fn step_row(cells: Seq<KeyDebounce>, samples: Seq<bool>, window: u16) -> Seq<
    KeyDebounce,
> {
    Seq::new(cells.len(), |c: int| step(cells[c], samples[c], window))
}

/// The whole matrix after one scan.
pub open spec fn step_grid(
    cells: Seq<Seq<KeyDebounce>>,
    samples: Seq<Seq<bool>>,
    window: u16,
) -> Seq<Seq<KeyDebounce>> {
    Seq::new(cells.len(), |r: int| step_row(cells[r], samples[r], window))
}

/// Events of the first `upto` columns of row `row`, by ascending column.
pub open spec fn row_events(
    cells: Seq<KeyDebounce>,
    samples: Seq<bool>,
    row: int,
    upto: int,
) -> Seq<Event>
    decreases upto,
{
    if upto <= 0 {
        Seq::empty()
    } else {
        let before = row_events(cells, samples, row, upto - 1);
        let col: int = upto - 1;
        if emits(cells[col], samples[col]) {
            before.push(
                Event {
                    coord: Coord { row: row as usize, col: col as usize },
                    direction: direction_of(samples[col]),
                },
            )
        } else {
            before
        }
    }
}

/// Events of the first `upto` rows, row by row.
pub open spec fn grid_events(
    cells: Seq<Seq<KeyDebounce>>,
    samples: Seq<Seq<bool>>,
    upto: int,
) -> Seq<Event>
    decreases upto,
{
    if upto <= 0 {
        Seq::empty()
    } else {
        let row: int = upto - 1;
        grid_events(cells, samples, row) + row_events(
            cells[row],
            samples[row],
            row,
            cells[row].len() as int,
        )
    }
}

/// Debounce state of a whole key matrix.
pub struct Debouncer {
    cells: Vec<Vec<KeyDebounce>>,
    cols: usize,
    window: u16,
}

impl Debouncer {
    /// Per-switch state by row and column.
    pub closed spec fn cells(&self) -> Seq<Seq<KeyDebounce>> {
        rows_of(self.cells@)
    }

    /// Number of rows.
    pub closed spec fn height(&self) -> int {
        self.cells@.len() as int
    }

    /// Number of columns.
    pub closed spec fn width(&self) -> int {
        self.cols as int
    }

    /// Scans for which a switch is deaf after an event.
    pub closed spec fn window(&self) -> u16 {
        self.window
    }

    /// The state covers `height()` by `width()` switches, none of them deaf
    /// for longer than the window.
    pub open spec fn wf(&self) -> bool {
        &&& rectangular(self.cells(), self.height(), self.width())
        &&& forall|r: int, c: int|
            0 <= r < self.height() && 0 <= c < self.width() ==> (
            #[trigger] self.cells()[r][c]).cooldown <= self.window()
    }

    /// A debouncer for `rows` by `cols` switches, all open and none deaf.
    pub fn new(rows: usize, cols: usize, window: u16) -> (d: Debouncer)
        ensures
            d.wf(),
            d.height() == rows,
            d.width() == cols,
            d.window() == window,
            forall|r: int, c: int|
                0 <= r < rows && 0 <= c < cols ==> (#[trigger] d.cells()[r][c]) == (KeyDebounce {
                    closed: false,
                    cooldown: 0,
                }),
    {
        let idle = KeyDebounce { closed: false, cooldown: 0 };
        let mut cells: Vec<Vec<KeyDebounce>> = Vec::new();
        let mut r: usize = 0;
        while r < rows
            invariant
                r <= rows,
                cells@.len() == r,
                idle == (KeyDebounce { closed: false, cooldown: 0 }),
                forall|i: int| 0 <= i < r ==> (#[trigger] cells@[i])@.len() == cols,
                forall|i: int, j: int|
                    0 <= i < r && 0 <= j < cols ==> (#[trigger] cells@[i]@[j]) == idle,
            decreases rows - r,
        {
            let mut row: Vec<KeyDebounce> = Vec::new();
            let mut c: usize = 0;
            while c < cols
                invariant
                    c <= cols,
                    row@.len() == c,
                    forall|j: int| 0 <= j < c ==> (#[trigger] row@[j]) == idle,
                decreases cols - c,
            {
                row.push(idle);
                c += 1;
            }
            cells.push(row);
            r += 1;
        }
        Debouncer { cells, cols, window }
    }

    /// Number of rows.
    pub fn rows(&self) -> (n: usize)
        ensures
            n == self.height(),
    {
        self.cells.len()
    }

    /// Number of columns.
    pub fn cols(&self) -> (n: usize)
        ensures
            n == self.width(),
    {
        self.cols
    }

    /// Scans for which a switch is deaf after an event.
    pub fn cooldown_window(&self) -> (n: u16)
        ensures
            n == self.window(),
    {
        self.window
    }

    /// The debounce state of the switch at `row`, `col`.
    pub fn cell(&self, row: usize, col: usize) -> (cell: KeyDebounce)
        requires
            self.wf(),
            row < self.height(),
            col < self.width(),
        ensures
            cell == self.cells()[row as int][col as int],
    {
        assert(self.cells()[row as int] == self.cells@[row as int]@);
        self.cells[row][col]
    }

    /// Takes one scan of the matrix. Each switch moves by `step`; the events
    /// come out by ascending row, and within a row by ascending column.
    pub fn events(&mut self, grid: &RawGrid) -> (events: Vec<Event>)
        requires
            old(self).wf(),
            grid.wf(),
            grid.height() == old(self).height(),
            grid.width() == old(self).width(),
        ensures
            final(self).wf(),
            final(self).height() == old(self).height(),
            final(self).width() == old(self).width(),
            final(self).window() == old(self).window(),
            final(self).cells() == step_grid(old(self).cells(), grid.samples(), old(self).window()),
            events@ == grid_events(old(self).cells(), grid.samples(), old(self).height()),
    {
        let ghost before = self.cells();
        let ghost samples = grid.samples();
        let rows: usize = self.cells.len();
        let cols: usize = self.cols;
        let window: u16 = self.window;
        let mut events: Vec<Event> = Vec::new();
        let mut r: usize = 0;
        while r < rows
            invariant
                r <= rows,
                rows == before.len(),
                cols == self.cols,
                window == self.window,
                self.cells@.len() == rows,
                rectangular(before, rows as int, cols as int),
                grid.wf(),
                grid.height() == rows,
                grid.width() == cols,
                samples == grid.samples(),
                forall|i: int, j: int|
                    0 <= i < rows && 0 <= j < cols ==> (#[trigger] before[i][j]).cooldown
                        <= window,
                forall|i: int|
                    0 <= i < r ==> (#[trigger] self.cells@[i])@ == step_row(
                        before[i],
                        samples[i],
                        window,
                    ),
                forall|i: int| r <= i < rows ==> (#[trigger] self.cells@[i])@ == before[i],
                events@ == grid_events(before, samples, r as int),
            decreases rows - r,
        {
            let ghost done = events@;
            let mut c: usize = 0;
            while c < cols
                invariant
                    r < rows,
                    c <= cols,
                    rows == before.len(),
                    cols == self.cols,
                    window == self.window,
                    self.cells@.len() == rows,
                    rectangular(before, rows as int, cols as int),
                    grid.wf(),
                    grid.height() == rows,
                    grid.width() == cols,
                    samples == grid.samples(),
                    forall|i: int, j: int|
                        0 <= i < rows && 0 <= j < cols ==> (#[trigger] before[i][j]).cooldown
                            <= window,
                    forall|i: int|
                        0 <= i < r ==> (#[trigger] self.cells@[i])@ == step_row(
                            before[i],
                            samples[i],
                            window,
                        ),
                    forall|i: int| r < i < rows ==> (#[trigger] self.cells@[i])@ == before[i],
                    self.cells@[r as int]@.len() == cols,
                    forall|j: int|
                        0 <= j < c ==> (#[trigger] self.cells@[r as int]@[j]) == step(
                            before[r as int][j],
                            samples[r as int][j],
                            window,
                        ),
                    forall|j: int|
                        c <= j < cols ==> (#[trigger] self.cells@[r as int]@[j])
                            == before[r as int][j],
                    done == grid_events(before, samples, r as int),
                    events@ == done + row_events(
                        before[r as int],
                        samples[r as int],
                        r as int,
                        c as int,
                    ),
                decreases cols - c,
            {
                let sample = grid.get(r, c);
                let cell = self.cells[r][c];
                assert(cell == before[r as int][c as int]);
                if cell.cooldown > 0 {
                    self.cells[r][c] = KeyDebounce {
                        closed: cell.closed,
                        cooldown: cell.cooldown - 1,
                    };
                } else if sample != cell.closed {
                    self.cells[r][c] = KeyDebounce { closed: sample, cooldown: window };
                    let direction = if sample {
                        Direction::Press
                    } else {
                        Direction::Release
                    };
                    events.push(Event { coord: Coord { row: r, col: c }, direction });
                }
                c += 1;
            }
            assert(self.cells@[r as int]@ =~= step_row(
                before[r as int],
                samples[r as int],
                window,
            ));
            r += 1;
        }
        assert(self.cells() =~= step_grid(before, samples, window));
        events
    }
}

/// State of one switch after the scans `samples`, oldest first.
pub open spec fn run(cell: KeyDebounce, samples: Seq<bool>, window: u16) -> KeyDebounce
    decreases samples.len(),
{
    if samples.len() == 0 {
        cell
    } else {
        step(run(cell, samples.drop_last(), window), samples.last(), window)
    }
}

/// The event, if any, that scan number `tick` of `samples` yields for a
/// switch that starts in state `cell`.
pub open spec fn emitted(cell: KeyDebounce, samples: Seq<bool>, window: u16, tick: int) -> Option<
    Direction,
> {
    if emits(run(cell, samples.take(tick), window), samples[tick]) {
        Some(direction_of(samples[tick]))
    } else {
        None
    }
}

proof fn lemma_run_unfold(cell: KeyDebounce, samples: Seq<bool>, window: u16, tick: int)
    requires
        0 <= tick < samples.len(),
    ensures
        run(cell, samples.take(tick + 1), window) == step(
            run(cell, samples.take(tick), window),
            samples[tick],
            window,
        ),
{
    assert(samples.take(tick + 1).drop_last() =~= samples.take(tick));
}

proof fn lemma_after_accept(cell: KeyDebounce, samples: Seq<bool>, window: u16, scans: int)
    requires
        cell.cooldown == 0,
        1 <= scans <= samples.len(),
        samples[0] != cell.closed,
        forall|i: int| window < i < samples.len() ==> #[trigger] samples[i] == samples[0],
    ensures
        run(cell, samples.take(scans), window).closed == samples[0],
        run(cell, samples.take(scans), window).cooldown == if scans - 1 <= window {
            window - (scans - 1)
        } else {
            0
        },
    decreases scans,
{
    lemma_run_unfold(cell, samples, window, scans - 1);
    if scans == 1 {
        assert(samples.take(0) =~= Seq::<bool>::empty());
    } else {
        lemma_after_accept(cell, samples, window, scans - 1);
    }
}

/// A contact that changes, bounces while the switch is deaf and has settled
/// at the new level by the end of the window yields one event, at the first
/// change, and none after it.
pub proof fn lemma_bounce_yields_one_event(
    cell: KeyDebounce,
    samples: Seq<bool>,
    window: u16,
    tick: int,
)
    requires
        cell.cooldown == 0,
        samples.len() > 0,
        samples[0] != cell.closed,
        forall|i: int| window < i < samples.len() ==> #[trigger] samples[i] == samples[0],
        0 < tick < samples.len(),
    ensures
        emitted(cell, samples, window, 0) == Some(direction_of(samples[0])),
        emitted(cell, samples, window, tick) is None,
{
    assert(samples.take(0) =~= Seq::<bool>::empty());
    lemma_after_accept(cell, samples, window, tick);
}

/// During the window after an event the switch yields nothing, whatever the
/// contact reads.
pub proof fn lemma_deaf_during_cooldown(
    cell: KeyDebounce,
    samples: Seq<bool>,
    window: u16,
    first: int,
    tick: int,
)
    requires
        0 <= first < tick < samples.len(),
        emitted(cell, samples, window, first) is Some,
        tick - first <= window,
    ensures
        emitted(cell, samples, window, tick) is None,
{
    lemma_cooling(cell, samples, window, first, tick);
}

proof fn lemma_cooling(cell: KeyDebounce, samples: Seq<bool>, window: u16, first: int, tick: int)
    requires
        0 <= first < tick <= samples.len(),
        emitted(cell, samples, window, first) is Some,
        tick - first <= window + 1,
    ensures
        run(cell, samples.take(tick), window).cooldown == window - (tick - first - 1),
        run(cell, samples.take(tick), window).closed == samples[first],
    decreases tick,
{
    lemma_run_unfold(cell, samples, window, tick - 1);
    if tick > first + 1 {
        lemma_cooling(cell, samples, window, first, tick - 1);
    }
}

/// A contact that stays at the accepted level yields nothing once the
/// switch is no longer deaf.
pub proof fn lemma_steady_is_silent(cell: KeyDebounce, samples: Seq<bool>, window: u16, tick: int)
    requires
        0 <= tick < samples.len(),
        forall|i: int| 0 <= i <= tick ==> #[trigger] samples[i] == cell.closed,
    ensures
        emitted(cell, samples, window, tick) is None,
        run(cell, samples.take(tick + 1), window).closed == cell.closed,
{
    lemma_steady(cell, samples, window, tick);
    lemma_steady(cell, samples, window, tick + 1);
}

proof fn lemma_steady(cell: KeyDebounce, samples: Seq<bool>, window: u16, scans: int)
    requires
        0 <= scans <= samples.len(),
        forall|i: int| 0 <= i < scans ==> #[trigger] samples[i] == cell.closed,
    ensures
        run(cell, samples.take(scans), window).closed == cell.closed,
    decreases scans,
{
    if scans == 0 {
        assert(samples.take(0) =~= Seq::<bool>::empty());
    } else {
        lemma_run_unfold(cell, samples, window, scans - 1);
        lemma_steady(cell, samples, window, scans - 1);
    }
}

proof fn lemma_quiet_keeps_level(
    cell: KeyDebounce,
    samples: Seq<bool>,
    window: u16,
    first: int,
    tick: int,
)
    requires
        0 <= first < tick <= samples.len(),
        emitted(cell, samples, window, first) is Some,
        forall|k: int| first < k < tick ==> emitted(cell, samples, window, k) is None,
    ensures
        run(cell, samples.take(tick), window).closed == samples[first],
    decreases tick,
{
    lemma_run_unfold(cell, samples, window, tick - 1);
    if tick > first + 1 {
        lemma_quiet_keeps_level(cell, samples, window, first, tick - 1);
        assert(emitted(cell, samples, window, tick - 1) is None);
    }
}

/// Two events of one switch with none between them have opposite
/// directions.
pub proof fn lemma_events_alternate(
    cell: KeyDebounce,
    samples: Seq<bool>,
    window: u16,
    first: int,
    second: int,
)
    requires
        0 <= first < second < samples.len(),
        emitted(cell, samples, window, first) is Some,
        emitted(cell, samples, window, second) is Some,
        forall|k: int| first < k < second ==> emitted(cell, samples, window, k) is None,
    ensures
        emitted(cell, samples, window, first) != emitted(cell, samples, window, second),
{
    lemma_quiet_keeps_level(cell, samples, window, first, second);
}

proof fn lemma_row_events_contains(
    cells: Seq<KeyDebounce>,
    samples: Seq<bool>,
    row: int,
    upto: int,
    event: Event,
)
    requires
        0 <= upto <= cells.len(),
        0 <= row <= usize::MAX,
        cells.len() <= usize::MAX,
    ensures
        row_events(cells, samples, row, upto).contains(event) <==> {
            &&& event.coord.row == row
            &&& event.coord.col < upto
            &&& emits(cells[event.coord.col as int], samples[event.coord.col as int])
            &&& event.direction == direction_of(samples[event.coord.col as int])
        },
    decreases upto,
{
    if upto > 0 {
        lemma_row_events_contains(cells, samples, row, upto - 1, event);
        let before = row_events(cells, samples, row, upto - 1);
        let col: int = upto - 1;
        if emits(cells[col], samples[col]) {
            let last = Event {
                coord: Coord { row: row as usize, col: col as usize },
                direction: direction_of(samples[col]),
            };
            assert(before.push(last).last() == last);
            assert forall|e: Event| before.push(last).contains(e) <==> before.contains(e) || e
                == last by {
                if before.contains(e) {
                    let i: int = choose|i: int| 0 <= i < before.len() && before[i] == e;
                    assert(before.push(last)[i] == e);
                }
                if e == last {
                    assert(before.push(last)[before.len() as int] == e);
                }
            }
        }
    }
}

/// A scan yields an event for a switch exactly when `emits` holds of it, in
/// the direction of the sample.
pub proof fn lemma_grid_events_contains(
    cells: Seq<Seq<KeyDebounce>>,
    samples: Seq<Seq<bool>>,
    upto: int,
    event: Event,
)
    requires
        0 <= upto <= cells.len(),
        cells.len() <= usize::MAX,
        forall|r: int| 0 <= r < cells.len() ==> (#[trigger] cells[r]).len() <= usize::MAX,
    ensures
        grid_events(cells, samples, upto).contains(event) <==> {
            let r = event.coord.row as int;
            let c = event.coord.col as int;
            &&& r < upto
            &&& c < cells[r].len()
            &&& emits(cells[r][c], samples[r][c])
            &&& event.direction == direction_of(samples[r][c])
        },
    decreases upto,
{
    if upto > 0 {
        let row: int = upto - 1;
        lemma_grid_events_contains(cells, samples, row, event);
        lemma_row_events_contains(cells[row], samples[row], row, cells[row].len() as int, event);
        let head = grid_events(cells, samples, row);
        let tail = row_events(cells[row], samples[row], row, cells[row].len() as int);
        assert((head + tail).contains(event) <==> head.contains(event) || tail.contains(event))
            by {
            if head.contains(event) {
                let i: int = choose|i: int| 0 <= i < head.len() && head[i] == event;
                assert((head + tail)[i] == event);
            }
            if tail.contains(event) {
                let i: int = choose|i: int| 0 <= i < tail.len() && tail[i] == event;
                assert((head + tail)[head.len() + i] == event);
            }
            if (head + tail).contains(event) {
                let i: int = choose|i: int| 0 <= i < (head + tail).len() && (head + tail)[i] == event;
                if i < head.len() {
                    assert(head[i] == event);
                } else {
                    assert(tail[i - head.len()] == event);
                }
            }
        }
    }
}

/// The state of the matrix after the scans `grids`, oldest first.
pub open spec fn scan_all(
    cells: Seq<Seq<KeyDebounce>>,
    grids: Seq<Seq<Seq<bool>>>,
    window: u16,
) -> Seq<Seq<KeyDebounce>>
    decreases grids.len(),
{
    if grids.len() == 0 {
        cells
    } else {
        step_grid(scan_all(cells, grids.drop_last(), window), grids.last(), window)
    }
}

/// What the contact at `row`, `col` reads in the scans `grids`.
pub open spec fn samples_at(grids: Seq<Seq<Seq<bool>>>, row: int, col: int) -> Seq<bool> {
    Seq::new(grids.len(), |t: int| grids[t][row][col])
}

/// Each switch goes its own way: after any scans of the matrix its state is
/// what `run` gives for the samples of its own contact.
pub proof fn lemma_switches_are_independent(
    cells: Seq<Seq<KeyDebounce>>,
    grids: Seq<Seq<Seq<bool>>>,
    window: u16,
    row: int,
    col: int,
)
    requires
        0 <= row < cells.len(),
        0 <= col < cells[row].len(),
    ensures
        scan_all(cells, grids, window).len() == cells.len(),
        scan_all(cells, grids, window)[row].len() == cells[row].len(),
        scan_all(cells, grids, window)[row][col] == run(
            cells[row][col],
            samples_at(grids, row, col),
            window,
        ),
    decreases grids.len(),
{
    if grids.len() > 0 {
        lemma_switches_are_independent(cells, grids.drop_last(), window, row, col);
        assert(samples_at(grids, row, col).drop_last() =~= samples_at(
            grids.drop_last(),
            row,
            col,
        ));
    }
}

/// Scan number `tick` of the matrix yields an event for a switch exactly
/// when `emitted` gives one for the samples of its contact.
pub proof fn lemma_scan_yields_emitted(
    cells: Seq<Seq<KeyDebounce>>,
    grids: Seq<Seq<Seq<bool>>>,
    window: u16,
    tick: int,
    event: Event,
)
    requires
        0 <= tick < grids.len(),
        event.coord.row < cells.len(),
        event.coord.col < cells[event.coord.row as int].len(),
        cells.len() <= usize::MAX,
        forall|r: int| 0 <= r < cells.len() ==> (#[trigger] cells[r]).len() <= usize::MAX,
    ensures
        grid_events(
            scan_all(cells, grids.take(tick), window),
            grids[tick],
            cells.len() as int,
        ).contains(event) <==> emitted(
            cells[event.coord.row as int][event.coord.col as int],
            samples_at(grids, event.coord.row as int, event.coord.col as int),
            window,
            tick,
        ) == Some(event.direction),
{
    let row: int = event.coord.row as int;
    let col: int = event.coord.col as int;
    let now = scan_all(cells, grids.take(tick), window);
    lemma_switches_are_independent(cells, grids.take(tick), window, row, col);
    assert(samples_at(grids.take(tick), row, col) =~= samples_at(grids, row, col).take(tick));
    assert forall|r: int| 0 <= r < now.len() implies (#[trigger] now[r]).len() <= usize::MAX by {
        lemma_scan_keeps_shape(cells, grids.take(tick), window, r);
    }
    lemma_grid_events_contains(now, grids[tick], cells.len() as int, event);
}

proof fn lemma_scan_keeps_shape(
    cells: Seq<Seq<KeyDebounce>>,
    grids: Seq<Seq<Seq<bool>>>,
    window: u16,
    row: int,
)
    requires
        0 <= row < cells.len(),
    ensures
        scan_all(cells, grids, window).len() == cells.len(),
        scan_all(cells, grids, window)[row].len() == cells[row].len(),
    decreases grids.len(),
{
    if grids.len() > 0 {
        lemma_scan_keeps_shape(cells, grids.drop_last(), window, row);
    }
}

} // verus!
