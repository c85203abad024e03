//! From key events to held key codes: which action a press captures, and
//! what the matching release takes away again.

use vstd::prelude::*;
use crate::action::{codes, Action, ActionModel};
use crate::grid::{rectangular, rows_of, Coord, Direction, Event};
use crate::layout::{
    defect, layers_exist, lemma_lookup_is_concrete, lookup, obeys, resolving_layer, Layout, Rule,
};
use crate::report::{report_bytes, OutputReport};

verus! {

/// What the resolver remembers between events.
pub struct ResolverState {
    /// The layers that held keys keep active; the most recent is last.
    pub stack: Seq<usize>,
    /// For each switch that is held, the action that its press captured.
    pub held: Seq<Seq<Option<ActionModel>>>,
}

/// Whether `coord` names a switch of `held`.
pub open spec fn in_matrix(held: Seq<Seq<Option<ActionModel>>>, coord: Coord) -> bool {
    coord.row < held.len() && coord.col < held[coord.row as int].len()
}

/// Whether a press that resolves to `action` is remembered until its
/// release.
pub open spec fn records(action: ActionModel) -> bool {
    !(action is NoOp) && !(action is Transparent)
}

/// `stack` without the most recent occurrence of `layer`.
pub open spec fn without_latest(stack: Seq<usize>, layer: usize) -> Seq<usize>
    decreases stack.len(),
{
    if stack.len() == 0 {
        stack
    } else if stack.last() == layer {
        stack.drop_last()
    } else {
        without_latest(stack.drop_last(), layer).push(stack.last())
    }
}

/// `held` with the entry of `coord` replaced.
pub open spec fn with_key(
    held: Seq<Seq<Option<ActionModel>>>,
    coord: Coord,
    key: Option<ActionModel>,
) -> Seq<Seq<Option<ActionModel>>> {
    held.update(coord.row as int, held[coord.row as int].update(coord.col as int, key))
}

/// The state after a press of the switch at `coord`. A press outside the
/// matrix, of a switch that is already held, or of a switch that resolves to
/// no action changes nothing.
pub open spec fn press(
    table: Seq<Seq<Seq<ActionModel>>>,
    state: ResolverState,
    coord: Coord,
) -> ResolverState {
    let action = lookup(table, state.stack, coord.row as int, coord.col as int);
    if !in_matrix(state.held, coord) || state.held[coord.row as int][coord.col as int] is Some
        || !records(action) {
        state
    } else {
        ResolverState {
            stack: match action {
                ActionModel::LayerHold(layer) => state.stack.push(layer),
                _ => state.stack,
            },
            held: with_key(state.held, coord, Some(action)),
        }
    }
}

/// The state after a release of the switch at `coord`. A release outside
/// the matrix or of a switch that is not held changes nothing.
pub open spec fn release(state: ResolverState, coord: Coord) -> ResolverState {
    if !in_matrix(state.held, coord) {
        state
    } else {
        match state.held[coord.row as int][coord.col as int] {
            None => state,
            Some(action) => ResolverState {
                stack: match action {
                    ActionModel::LayerHold(layer) => without_latest(state.stack, layer),
                    _ => state.stack,
                },
                held: with_key(state.held, coord, None),
            },
        }
    }
}

/// The state after `event`.
pub open spec fn next(
    table: Seq<Seq<Seq<ActionModel>>>,
    state: ResolverState,
    event: Event,
) -> ResolverState {
    match event.direction {
        Direction::Press => press(table, state, event.coord),
        Direction::Release => release(state, event.coord),
    }
}

/// The key codes that `event` adds to the held codes, for a press, or takes
/// away from them, for a release.
pub open spec fn delta_codes(
    table: Seq<Seq<Seq<ActionModel>>>,
    state: ResolverState,
    event: Event,
) -> Seq<u8> {
    let row: int = event.coord.row as int;
    let col: int = event.coord.col as int;
    if !in_matrix(state.held, event.coord) {
        Seq::empty()
    } else {
        match (event.direction, state.held[row][col]) {
            (Direction::Press, None) => codes(lookup(table, state.stack, row, col)),
            (Direction::Release, Some(action)) => codes(action),
            _ => Seq::empty(),
        }
    }
}

/// The state after the events `events`, oldest first.
pub open spec fn run_events(
    table: Seq<Seq<Seq<ActionModel>>>,
    state: ResolverState,
    events: Seq<Event>,
) -> ResolverState
    decreases events.len(),
{
    if events.len() == 0 {
        state
    } else {
        next(table, run_events(table, state, events.drop_last()), events.last())
    }
}

/// The key codes that a switch contributes.
pub open spec fn key_codes(key: Option<ActionModel>) -> Seq<u8> {
    match key {
        Some(action) => codes(action),
        None => Seq::empty(),
    }
}

/// The key codes of the first `upto` switches of a row, by ascending column.
pub open spec fn row_codes(row: Seq<Option<ActionModel>>, upto: int) -> Seq<u8>
    decreases upto,
{
    if upto <= 0 {
        Seq::empty()
    } else {
        row_codes(row, upto - 1) + key_codes(row[upto - 1])
    }
}

/// The key codes of the first `upto` rows, row by row.
pub open spec fn grid_codes(held: Seq<Seq<Option<ActionModel>>>, upto: int) -> Seq<u8>
    decreases upto,
{
    if upto <= 0 {
        Seq::empty()
    } else {
        grid_codes(held, upto - 1) + row_codes(held[upto - 1], held[upto - 1].len() as int)
    }
}

/// All held key codes: by ascending row, within a row by ascending column,
/// within a chord in the chord's order.
pub open spec fn live_codes(held: Seq<Seq<Option<ActionModel>>>) -> Seq<u8> {
    grid_codes(held, held.len() as int)
}

/// How often `layer` occurs in `stack`.
pub open spec fn occurrences(stack: Seq<usize>, layer: usize) -> nat
    decreases stack.len(),
{
    if stack.len() == 0 {
        0
    } else {
        occurrences(stack.drop_last(), layer) + if stack.last() == layer {
            1nat
        } else {
            0nat
        }
    }
}

/// 1 where `key` is a held key that keeps `layer` active, else 0.
pub open spec fn holds_layer(key: Option<ActionModel>, layer: usize) -> nat {
    if key == Some(ActionModel::LayerHold(layer)) {
        1
    } else {
        0
    }
}

/// How many of the first `upto` switches of a row keep `layer` active.
pub open spec fn row_holds(row: Seq<Option<ActionModel>>, upto: int, layer: usize) -> nat
    decreases upto,
{
    if upto <= 0 {
        0
    } else {
        row_holds(row, upto - 1, layer) + holds_layer(row[upto - 1], layer)
    }
}

/// How many switches of the first `upto` rows keep `layer` active.
pub open spec fn grid_holds(held: Seq<Seq<Option<ActionModel>>>, upto: int, layer: usize) -> nat
    decreases upto,
{
    if upto <= 0 {
        0
    } else {
        grid_holds(held, upto - 1, layer) + row_holds(
            held[upto - 1],
            held[upto - 1].len() as int,
            layer,
        )
    }
}

/// Whether the stack holds each layer once for every held key that keeps it
/// active.
pub open spec fn stack_matches(state: ResolverState) -> bool {
    forall|layer: usize| #[trigger]
        occurrences(state.stack, layer) == grid_holds(state.held, state.held.len() as int, layer)
}

/// Whether `state` fits a layout `table` for `rows` by `cols` switches.
pub open spec fn state_fits(
    table: Seq<Seq<Seq<ActionModel>>>,
    rows: int,
    cols: int,
    state: ResolverState,
) -> bool {
    &&& rectangular(state.held, rows, cols)
    &&& layers_exist(state.stack, table.len() as int)
    &&& stack_matches(state)
    &&& forall|r: int, c: int|
        0 <= r < rows && 0 <= c < cols ==> match #[trigger] state.held[r][c] {
            Some(action) => records(action) && obeys(
                Rule::LayersKnown,
                action,
                0,
                table.len() as int,
            ),
            None => true,
        }
}

/// The key codes that one event adds or takes away.
#[derive(Clone, Debug, PartialEq, Eq)]
pub struct Delta {
    /// `Press` where the codes are added, `Release` where they are taken
    /// away.
    pub direction: Direction,
    /// The codes, in the order of the action that holds them.
    pub codes: Vec<u8>,
}

fn append(out: &mut Vec<u8>, more: &Vec<u8>)
    ensures
        final(out)@ == old(out)@ + more@,
{
    let mut i: usize = 0;
    while i < more.len()
        invariant
            i <= more@.len(),
            out@ == old(out)@ + more@.take(i as int),
        decreases more@.len() - i,
    {
        out.push(more[i]);
        assert(more@.take(i as int + 1) =~= more@.take(i as int).push(more@[i as int]));
        i += 1;
    }
    assert(more@.take(more@.len() as int) =~= more@);
}

proof fn lemma_without_latest_at(stack: Seq<usize>, layer: usize, at: int)
    requires
        0 <= at < stack.len(),
        stack[at] == layer,
        forall|j: int| at < j < stack.len() ==> #[trigger] stack[j] != layer,
    ensures
        without_latest(stack, layer) == stack.remove(at),
    decreases stack.len(),
{
    if at == stack.len() - 1 {
        assert(stack.remove(at) =~= stack.drop_last());
    } else {
        assert(stack[stack.len() - 1] != layer);
        let rest = stack.drop_last();
        assert forall|j: int| at < j < rest.len() implies #[trigger] rest[j] != layer by {
            assert(rest[j] == stack[j]);
        }
        lemma_without_latest_at(rest, layer, at);
        assert(rest.remove(at).push(stack.last()) =~= stack.remove(at));
    }
}

proof fn lemma_without_latest_absent(stack: Seq<usize>, layer: usize)
    requires
        forall|j: int| 0 <= j < stack.len() ==> #[trigger] stack[j] != layer,
    ensures
        without_latest(stack, layer) == stack,
    decreases stack.len(),
{
    if stack.len() > 0 {
        assert(stack[stack.len() - 1] != layer);
        let rest = stack.drop_last();
        assert forall|j: int| 0 <= j < rest.len() implies #[trigger] rest[j] != layer by {
            assert(rest[j] == stack[j]);
        }
        lemma_without_latest_absent(rest, layer);
        assert(rest.push(stack.last()) =~= stack);
    }
}

proof fn lemma_without_latest_exist(stack: Seq<usize>, layer: usize, depth: int)
    requires
        layers_exist(stack, depth),
    ensures
        layers_exist(without_latest(stack, layer), depth),
    decreases stack.len(),
{
    if stack.len() > 0 {
        let rest = stack.drop_last();
        assert forall|j: int| 0 <= j < rest.len() implies (#[trigger] rest[j]) < depth by {
            assert(rest[j] == stack[j]);
        }
        if stack.last() != layer {
            lemma_without_latest_exist(rest, layer, depth);
            assert(stack[stack.len() - 1] < depth);
        }
    }
}

fn remove_latest(stack: &mut Vec<usize>, layer: usize)
    ensures
        final(stack)@ == without_latest(old(stack)@, layer),
{
    let mut i: usize = stack.len();
    while i > 0
        invariant
            i <= stack@.len(),
            stack@ == old(stack)@,
            forall|j: int| i <= j < stack@.len() ==> #[trigger] stack@[j] != layer,
        decreases i,
    {
        if stack[i - 1] == layer {
            proof {
                lemma_without_latest_at(stack@, layer, i as int - 1);
            }
            stack.remove(i - 1);
            return;
        }
        i -= 1;
    }
    proof {
        lemma_without_latest_absent(stack@, layer);
    }
}

/// Resolves key events against a layout.
pub struct Resolver {
    layout: Layout,
    stack: Vec<usize>,
    held: Vec<Vec<Option<usize>>>,
}

impl View for Resolver {
    type V = ResolverState;

    /// The active layers and the captured actions.
    closed spec fn view(&self) -> ResolverState {
        ResolverState {
            stack: self.stack@,
            held: Seq::new(
                self.held@.len(),
                |r: int|
                    Seq::new(
                        self.held@[r]@.len(),
                        |c: int|
                            match self.held@[r]@[c] {
                                Some(layer) => Some(self.layout@[layer as int][r][c]),
                                None => None,
                            },
                    ),
            ),
        }
    }
}

impl Resolver {
    /// The layout that events are resolved against.
    pub closed spec fn table(&self) -> Seq<Seq<Seq<ActionModel>>> {
        self.layout@
    }

    /// Number of rows of the matrix.
    pub closed spec fn height(&self) -> int {
        self.layout.height()
    }

    /// Number of columns of the matrix.
    pub closed spec fn width(&self) -> int {
        self.layout.width()
    }

    /// The layout is well formed and the state fits it.
    pub closed spec fn wf(&self) -> bool {
        &&& self.layout.wf()
        &&& rectangular(rows_of(self.held@), self.height(), self.width())
        &&& layers_exist(self.stack@, self.table().len() as int)
        &&& stack_matches(self@)
        &&& forall|r: int, c: int|
            0 <= r < self.height() && 0 <= c < self.width() ==> match #[trigger] self.held@[r]@[c] {
                Some(layer) => layer < self.table().len() && records(
                    self.table()[layer as int][r][c],
                ),
                None => true,
            }
    }

    /// A resolver for `layout` with no key held and no layer active.
    pub fn new(layout: Layout) -> (resolver: Resolver)
        requires
            layout.wf(),
        ensures
            resolver.wf(),
            resolver.table() == layout@,
            resolver.height() == layout.height(),
            resolver.width() == layout.width(),
            resolver@.stack == Seq::<usize>::empty(),
            rectangular(resolver@.held, layout.height(), layout.width()),
            forall|r: int, c: int|
                0 <= r < layout.height() && 0 <= c < layout.width() ==> (
                #[trigger] resolver@.held[r][c]) is None,
    {
        let rows: usize = layout.rows();
        let cols: usize = layout.cols();
        let mut held: Vec<Vec<Option<usize>>> = Vec::new();
        let mut r: usize = 0;
        while r < rows
            invariant
                r <= rows,
                held@.len() == r,
                forall|i: int| 0 <= i < r ==> (#[trigger] held@[i])@.len() == cols,
                forall|i: int, j: int|
                    0 <= i < r && 0 <= j < cols ==> (#[trigger] held@[i]@[j]) is None,
            decreases rows - r,
        {
            let mut row: Vec<Option<usize>> = Vec::new();
            let mut c: usize = 0;
            while c < cols
                invariant
                    c <= cols,
                    row@.len() == c,
                    forall|j: int| 0 <= j < c ==> (#[trigger] row@[j]) is None,
                decreases cols - c,
            {
                row.push(None);
                c += 1;
            }
            held.push(row);
            r += 1;
        }
        let resolver = Resolver { layout, stack: Vec::new(), held };
        proof {
            assert forall|layer: usize| #[trigger]
                occurrences(resolver@.stack, layer) == grid_holds(
                    resolver@.held,
                    resolver@.held.len() as int,
                    layer,
                ) by {
                lemma_idle_grid_holds_nothing(resolver@.held, resolver@.held.len() as int, layer);
            }
        }
        resolver
    }

    /// What the views of a well-formed resolver have in common.
    pub proof fn lemma_fits(&self)
        requires
            self.wf(),
        ensures
            state_fits(self.table(), self.height(), self.width(), self@),
            defect(self.table(), self.height(), self.width()) is None,
    {
        self.layout.lemma_shape();
        assert forall|r: int, c: int| 0 <= r < self.height() && 0 <= c < self.width() implies (
        match #[trigger] self@.held[r][c] {
            Some(action) => records(action) && obeys(
                Rule::LayersKnown,
                action,
                0,
                self.table().len() as int,
            ),
            None => true,
        }) by {
            assert(rows_of(self.held@)[r].len() == self.width());
            match self.held@[r]@[c] {
                Some(layer) => {
                    assert(obeys(
                        Rule::LayersKnown,
                        self.table()[layer as int][r][c],
                        layer as int,
                        self.table().len() as int,
                    ));
                },
                None => {},
            }
        }
        assert forall|r: int| 0 <= r < self.height() implies (#[trigger] self@.held[r]).len()
            == self.width() by {
            assert(rows_of(self.held@)[r].len() == self.width());
        }
    }

    /// Takes one key event. A press captures the action that the active
    /// layers give the switch; a release gives up exactly what the press of
    /// the same switch captured. An event outside the matrix, a press of a
    /// held switch and a release of a switch that is not held are ignored.
    pub fn apply(&mut self, event: Event) -> (delta: Delta)
        requires
            old(self).wf(),
        ensures
            final(self).wf(),
            final(self).table() == old(self).table(),
            final(self).height() == old(self).height(),
            final(self).width() == old(self).width(),
            final(self)@ == next(old(self).table(), old(self)@, event),
            delta.direction == event.direction,
            delta.codes@ == delta_codes(old(self).table(), old(self)@, event),
    {
        let row: usize = event.coord.row;
        let col: usize = event.coord.col;
        let mut out: Vec<u8> = Vec::new();
        proof {
            self.lemma_fits();
            self.layout.lemma_shape();
        }
        if row >= self.layout.rows() || col >= self.layout.cols() {
            return Delta { direction: event.direction, codes: out };
        }
        assert(rows_of(self.held@)[row as int].len() == self.width());
        assert(in_matrix(self@.held, event.coord));
        let ghost before = self@;
        let ghost table = self.table();
        match event.direction {
            Direction::Press => {
                match self.held[row][col] {
                    Some(_) => {},
                    None => {
                        let layer: usize = self.layout.resolve(&self.stack, row, col);
                        let mut keep = true;
                        match self.layout.action(layer, row, col) {
                            Action::NoOp => {
                                keep = false;
                            },
                            Action::Transparent => {
                                keep = false;
                            },
                            Action::Key(code) => {
                                out.push(*code);
                                assert(out@ =~= seq![*code]);
                            },
                            Action::Chord(chord) => {
                                append(&mut out, chord);
                                assert(out@ =~= chord@);
                            },
                            Action::LayerHold(target) => {
                                assert(obeys(
                                    Rule::LayersKnown,
                                    table[layer as int][row as int][col as int],
                                    layer as int,
                                    table.len() as int,
                                ));
                                self.stack.push(*target);
                            },
                        }
                        if keep {
                            self.held[row][col] = Some(layer);
                            proof {
                                let action = lookup(table, before.stack, row as int, col as int);
                                let expected = with_key(before.held, event.coord, Some(action));
                                assert forall|r: int| 0 <= r < expected.len() implies (
                                #[trigger] self@.held[r]) =~= expected[r] by {}
                                assert(self@.held =~= expected);
                                assert(self@.stack == next(table, before, event).stack);
                                assert forall|i: int| 0 <= i < self.held@.len() implies (
                                #[trigger] rows_of(self.held@)[i]).len() == self.width() by {
                                    assert(rows_of(old(self).held@)[i].len() == self.width());
                                }
                            }
                        }
                    },
                }
            },
            Direction::Release => {
                match self.held[row][col] {
                    None => {},
                    Some(layer) => {
                        match self.layout.action(layer, row, col) {
                            Action::Key(code) => {
                                out.push(*code);
                                assert(out@ =~= seq![*code]);
                            },
                            Action::Chord(chord) => {
                                append(&mut out, chord);
                                assert(out@ =~= chord@);
                            },
                            Action::LayerHold(target) => {
                                proof {
                                    lemma_without_latest_exist(
                                        self.stack@,
                                        *target,
                                        table.len() as int,
                                    );
                                }
                                remove_latest(&mut self.stack, *target);
                            },
                            _ => {},
                        }
                        self.held[row][col] = None;
                        proof {
                            let expected = with_key(before.held, event.coord, None);
                            assert forall|r: int| 0 <= r < expected.len() implies (
                            #[trigger] self@.held[r]) =~= expected[r] by {}
                            assert(self@.held =~= expected);
                            assert(self@.stack == next(table, before, event).stack);
                            assert forall|i: int| 0 <= i < self.held@.len() implies (
                            #[trigger] rows_of(self.held@)[i]).len() == self.width() by {
                                assert(rows_of(old(self).held@)[i].len() == self.width());
                            }
                        }
                    },
                }
            },
        }
        proof {
            assert(self@ == next(table, before, event));
            lemma_next_fits(table, self.height(), self.width(), before, event);
        }
        Delta { direction: event.direction, codes: out }
    }

    /// One tick of time. Nothing here depends on time, so nothing changes.
    pub fn tick(&mut self)
        ensures
            *final(self) == *old(self),
    {
    }

    /// The held key codes: by ascending row, within a row by ascending
    /// column, within a chord in the chord's order.
    pub fn held_codes(&self) -> (out: Vec<u8>)
        requires
            self.wf(),
        ensures
            out@ == live_codes(self@.held),
    {
        let rows: usize = self.layout.rows();
        let cols: usize = self.layout.cols();
        let mut out: Vec<u8> = Vec::new();
        let mut r: usize = 0;
        proof {
            self.lemma_fits();
        }
        while r < rows
            invariant
                self.wf(),
                r <= rows,
                rows == self.height(),
                cols == self.width(),
                rows == self.held@.len(),
                rectangular(self@.held, rows as int, cols as int),
                out@ == grid_codes(self@.held, r as int),
            decreases rows - r,
        {
            let ghost done = out@;
            let mut c: usize = 0;
            while c < cols
                invariant
                    self.wf(),
                    r < rows,
                    c <= cols,
                    rows == self.height(),
                    cols == self.width(),
                    rows == self.held@.len(),
                    rectangular(self@.held, rows as int, cols as int),
                    done == grid_codes(self@.held, r as int),
                    out@ == done + row_codes(self@.held[r as int], c as int),
                decreases cols - c,
            {
                assert(rows_of(self.held@)[r as int].len() == self.width());
                match self.held[r][c] {
                    None => {},
                    Some(layer) => {
                        match self.layout.action(layer, r, c) {
                            Action::Key(code) => {
                                out.push(*code);
                            },
                            Action::Chord(chord) => {
                                append(&mut out, chord);
                            },
                            _ => {},
                        }
                    },
                }
                assert(out@ =~= done + row_codes(self@.held[r as int], c as int + 1));
                c += 1;
            }
            r += 1;
        }
        out
    }

    /// The report for the keys that are held now.
    pub fn report(&self) -> (report: OutputReport)
        requires
            self.wf(),
        ensures
            report@ == report_bytes(live_codes(self@.held)),
    {
        let live = self.held_codes();
        OutputReport::from_codes(&live)
    }

    /// Number of rows of the matrix.
    pub fn rows(&self) -> (n: usize)
        ensures
            n == self.height(),
    {
        self.layout.rows()
    }

    /// Number of columns of the matrix.
    pub fn cols(&self) -> (n: usize)
        ensures
            n == self.width(),
    {
        self.layout.cols()
    }

    /// The active layers; the most recent is last.
    pub fn active_layers(&self) -> (stack: &Vec<usize>)
        ensures
            stack@ == self@.stack,
    {
        &self.stack
    }

    /// The action that the press of the switch at `row`, `col` captured, if
    /// the switch is held.
    pub fn captured(&self, row: usize, col: usize) -> (action: Option<&Action>)
        requires
            self.wf(),
            row < self.height(),
            col < self.width(),
        ensures
            match action {
                Some(found) => self@.held[row as int][col as int] == Some(found@),
                None => self@.held[row as int][col as int] is None,
            },
    {
        assert(rows_of(self.held@)[row as int].len() == self.width());
        match self.held[row][col] {
            Some(layer) => Some(self.layout.action(layer, row, col)),
            None => None,
        }
    }

    /// Whether the switch at `row`, `col` is held with a captured action.
    pub fn is_held(&self, row: usize, col: usize) -> (held: bool)
        requires
            self.wf(),
            row < self.height(),
            col < self.width(),
        ensures
            held == self@.held[row as int][col as int] is Some,
    {
        assert(rows_of(self.held@)[row as int].len() == self.width());
        match self.held[row][col] {
            Some(_) => true,
            None => false,
        }
    }
}

proof fn lemma_idle_row_holds_nothing(row: Seq<Option<ActionModel>>, upto: int, layer: usize)
    requires
        0 <= upto <= row.len(),
        forall|c: int| 0 <= c < row.len() ==> (#[trigger] row[c]) is None,
    ensures
        row_holds(row, upto, layer) == 0,
    decreases upto,
{
    if upto > 0 {
        lemma_idle_row_holds_nothing(row, upto - 1, layer);
    }
}

proof fn lemma_idle_grid_holds_nothing(
    held: Seq<Seq<Option<ActionModel>>>,
    upto: int,
    layer: usize,
)
    requires
        0 <= upto <= held.len(),
        forall|r: int, c: int|
            0 <= r < held.len() && 0 <= c < held[r].len() ==> (#[trigger] held[r][c]) is None,
    ensures
        grid_holds(held, upto, layer) == 0,
    decreases upto,
{
    if upto > 0 {
        lemma_idle_grid_holds_nothing(held, upto - 1, layer);
        lemma_idle_row_holds_nothing(held[upto - 1], held[upto - 1].len() as int, layer);
    }
}

proof fn lemma_occurrences_push(stack: Seq<usize>, pushed: usize, layer: usize)
    ensures
        occurrences(stack.push(pushed), layer) == occurrences(stack, layer) + if pushed == layer {
            1nat
        } else {
            0nat
        },
{
    assert(stack.push(pushed).drop_last() =~= stack);
}

proof fn lemma_occurrences_without(stack: Seq<usize>, gone: usize, layer: usize)
    ensures
        occurrences(without_latest(stack, gone), layer) == if gone == layer && occurrences(
            stack,
            gone,
        ) > 0 {
            occurrences(stack, layer) - 1
        } else {
            occurrences(stack, layer) as int
        },
    decreases stack.len(),
{
    if stack.len() > 0 && stack.last() != gone {
        lemma_occurrences_without(stack.drop_last(), gone, layer);
        lemma_occurrences_push(without_latest(stack.drop_last(), gone), stack.last(), layer);
    }
}

proof fn lemma_row_holds_update(
    row: Seq<Option<ActionModel>>,
    col: int,
    key: Option<ActionModel>,
    upto: int,
    layer: usize,
)
    requires
        0 <= col < row.len(),
        0 <= upto <= row.len(),
    ensures
        row_holds(row.update(col, key), upto, layer) == if col < upto {
            row_holds(row, upto, layer) - holds_layer(row[col], layer) + holds_layer(key, layer)
        } else {
            row_holds(row, upto, layer) as int
        },
    decreases upto,
{
    if upto > 0 {
        lemma_row_holds_update(row, col, key, upto - 1, layer);
    }
}

proof fn lemma_grid_holds_update(
    held: Seq<Seq<Option<ActionModel>>>,
    coord: Coord,
    key: Option<ActionModel>,
    upto: int,
    layer: usize,
)
    requires
        in_matrix(held, coord),
        0 <= upto <= held.len(),
    ensures
        grid_holds(with_key(held, coord, key), upto, layer) == if coord.row < upto {
            grid_holds(held, upto, layer) - holds_layer(
                held[coord.row as int][coord.col as int],
                layer,
            ) + holds_layer(key, layer)
        } else {
            grid_holds(held, upto, layer) as int
        },
    decreases upto,
{
    if upto > 0 {
        lemma_grid_holds_update(held, coord, key, upto - 1, layer);
        if coord.row == upto - 1 {
            let row = held[coord.row as int];
            lemma_row_holds_update(row, coord.col as int, key, row.len() as int, layer);
        }
    }
}

/// While no key is held, no layer is active.
pub proof fn lemma_idle_matrix_has_no_layer(state: ResolverState)
    requires
        stack_matches(state),
        forall|r: int, c: int|
            0 <= r < state.held.len() && 0 <= c < state.held[r].len() ==> (
            #[trigger] state.held[r][c]) is None,
    ensures
        state.stack.len() == 0,
{
    if state.stack.len() > 0 {
        let layer: usize = state.stack.last();
        lemma_idle_grid_holds_nothing(state.held, state.held.len() as int, layer);
        assert(occurrences(state.stack, layer) >= 1);
    }
}

/// An active layer is held by some key: wherever a layer is on the stack,
/// some switch is held whose captured action keeps that layer active.
pub proof fn lemma_active_layer_is_held(state: ResolverState, layer: usize)
    requires
        stack_matches(state),
        state.stack.contains(layer),
    ensures
        exists|r: int, c: int|
            0 <= r < state.held.len() && 0 <= c < state.held[r].len() && #[trigger] state.held[r][c]
                == Some(ActionModel::LayerHold(layer)),
{
    lemma_occurrences_positive(state.stack, layer);
    lemma_grid_holds_witness(state.held, state.held.len() as int, layer);
}

proof fn lemma_occurrences_positive(stack: Seq<usize>, layer: usize)
    requires
        stack.contains(layer),
    ensures
        occurrences(stack, layer) > 0,
    decreases stack.len(),
{
    let i: int = choose|i: int| 0 <= i < stack.len() && stack[i] == layer;
    if stack.last() != layer {
        assert(stack.drop_last()[i] == layer);
        lemma_occurrences_positive(stack.drop_last(), layer);
    }
}

proof fn lemma_row_holds_witness(row: Seq<Option<ActionModel>>, upto: int, layer: usize)
    requires
        0 <= upto <= row.len(),
        row_holds(row, upto, layer) > 0,
    ensures
        exists|c: int| 0 <= c < upto && #[trigger] row[c] == Some(ActionModel::LayerHold(layer)),
    decreases upto,
{
    if holds_layer(row[upto - 1], layer) == 0 {
        lemma_row_holds_witness(row, upto - 1, layer);
        let c: int = choose|c: int|
            0 <= c < upto - 1 && #[trigger] row[c] == Some(ActionModel::LayerHold(layer));
        assert(0 <= c < upto && row[c] == Some(ActionModel::LayerHold(layer)));
    } else {
        assert(row[upto - 1] == Some(ActionModel::LayerHold(layer)));
    }
}

proof fn lemma_grid_holds_witness(held: Seq<Seq<Option<ActionModel>>>, upto: int, layer: usize)
    requires
        0 <= upto <= held.len(),
        grid_holds(held, upto, layer) > 0,
    ensures
        exists|r: int, c: int|
            0 <= r < upto && 0 <= c < held[r].len() && #[trigger] held[r][c] == Some(
                ActionModel::LayerHold(layer),
            ),
    decreases upto,
{
    let row: int = upto - 1;
    if row_holds(held[row], held[row].len() as int, layer) == 0 {
        lemma_grid_holds_witness(held, row, layer);
        let (r, c): (int, int) = choose|r: int, c: int|
            0 <= r < row && 0 <= c < held[r].len() && #[trigger] held[r][c] == Some(
                ActionModel::LayerHold(layer),
            );
        assert(0 <= r < upto && 0 <= c < held[r].len() && held[r][c] == Some(
            ActionModel::LayerHold(layer),
        ));
    } else {
        lemma_row_holds_witness(held[row], held[row].len() as int, layer);
        let c: int = choose|c: int|
            0 <= c < held[row].len() && #[trigger] held[row][c] == Some(
                ActionModel::LayerHold(layer),
            );
        assert(0 <= row < upto && 0 <= c < held[row].len() && held[row][c] == Some(
            ActionModel::LayerHold(layer),
        ));
    }
}

/// Every event leaves a state that fits the layout.
pub proof fn lemma_next_fits(
    table: Seq<Seq<Seq<ActionModel>>>,
    rows: int,
    cols: int,
    state: ResolverState,
    event: Event,
)
    requires
        defect(table, rows, cols) is None,
        state_fits(table, rows, cols, state),
    ensures
        state_fits(table, rows, cols, next(table, state, event)),
{
    let after = next(table, state, event);
    let row: int = event.coord.row as int;
    let col: int = event.coord.col as int;
    if after != state {
        assert(in_matrix(state.held, event.coord));
        assert(state.held[row].len() == cols);
        match event.direction {
            Direction::Press => {
                let action = lookup(table, state.stack, row, col);
                lemma_lookup_is_concrete(table, rows, cols, state.stack, row, col);
                let layer: int = resolving_layer(table, state.stack, row, col);
                assert(rectangular(table[layer], rows, cols));
                assert(obeys(Rule::LayersKnown, table[layer][row][col], layer, table.len() as int));
                assert(after.held == with_key(state.held, event.coord, Some(action)));
            },
            Direction::Release => {
                let action = state.held[row][col]->0;
                assert(after.held == with_key(state.held, event.coord, None));
                if let ActionModel::LayerHold(layer) = action {
                    lemma_without_latest_exist(state.stack, layer, table.len() as int);
                }
            },
        }
        assert forall|r: int| 0 <= r < rows implies (#[trigger] after.held[r]).len() == cols by {
            assert(state.held[r].len() == cols);
        }
        assert forall|layer: usize| #[trigger]
            occurrences(after.stack, layer) == grid_holds(
                after.held,
                after.held.len() as int,
                layer,
            ) by {
            assert(occurrences(state.stack, layer) == grid_holds(
                state.held,
                state.held.len() as int,
                layer,
            ));
            match event.direction {
                Direction::Press => {
                    let action = lookup(table, state.stack, row, col);
                    lemma_grid_holds_update(
                        state.held,
                        event.coord,
                        Some(action),
                        state.held.len() as int,
                        layer,
                    );
                    if let ActionModel::LayerHold(pushed) = action {
                        lemma_occurrences_push(state.stack, pushed, layer);
                    }
                },
                Direction::Release => {
                    let action = state.held[row][col]->0;
                    lemma_grid_holds_update(
                        state.held,
                        event.coord,
                        None,
                        state.held.len() as int,
                        layer,
                    );
                    if let ActionModel::LayerHold(gone) = action {
                        assert(occurrences(state.stack, gone) == grid_holds(
                            state.held,
                            state.held.len() as int,
                            gone,
                        ));
                        lemma_grid_holds_update(
                            state.held,
                            event.coord,
                            None,
                            state.held.len() as int,
                            gone,
                        );
                        lemma_occurrences_without(state.stack, gone, layer);
                    }
                },
            }
        }
        assert forall|r: int, c: int| 0 <= r < rows && 0 <= c < cols implies (
        match #[trigger] after.held[r][c] {
            Some(action) => records(action) && obeys(
                Rule::LayersKnown,
                action,
                0,
                table.len() as int,
            ),
            None => true,
        }) by {
            assert(state.held[r].len() == cols);
            if r != row || c != col {
                assert(after.held[r][c] == state.held[r][c]);
            }
        }
    }
}

/// Every run of events leaves a state that fits the layout.
pub proof fn lemma_run_fits(
    table: Seq<Seq<Seq<ActionModel>>>,
    rows: int,
    cols: int,
    state: ResolverState,
    events: Seq<Event>,
)
    requires
        defect(table, rows, cols) is None,
        state_fits(table, rows, cols, state),
    ensures
        state_fits(table, rows, cols, run_events(table, state, events)),
    decreases events.len(),
{
    if events.len() > 0 {
        lemma_run_fits(table, rows, cols, state, events.drop_last());
        lemma_next_fits(
            table,
            rows,
            cols,
            run_events(table, state, events.drop_last()),
            events.last(),
        );
    }
}

/// A press of a switch that is not held, followed at once by its release,
/// leaves the state as it was: the same keys held with the same actions, the
/// same layers active in the same order, and so the same held codes.
pub proof fn lemma_press_release_round_trip(
    table: Seq<Seq<Seq<ActionModel>>>,
    state: ResolverState,
    coord: Coord,
)
    requires
        in_matrix(state.held, coord),
        state.held[coord.row as int][coord.col as int] is None,
    ensures
        release(press(table, state, coord), coord) == state,
        live_codes(release(press(table, state, coord), coord).held) == live_codes(state.held),
{
    let pressed = press(table, state, coord);
    let action = lookup(table, state.stack, coord.row as int, coord.col as int);
    if records(action) {
        let back = release(pressed, coord);
        assert(back.held =~~= state.held);
        if let ActionModel::LayerHold(layer) = action {
            assert(state.stack.push(layer).drop_last() =~= state.stack);
        }
        assert(back.stack == state.stack);
    }
}

/// An event at one switch leaves what every other switch has captured.
pub proof fn lemma_other_key_keeps_capture(
    table: Seq<Seq<Seq<ActionModel>>>,
    state: ResolverState,
    event: Event,
    coord: Coord,
)
    requires
        in_matrix(state.held, coord),
        event.coord != coord,
    ensures
        in_matrix(next(table, state, event).held, coord),
        next(table, state, event).held[coord.row as int][coord.col as int]
            == state.held[coord.row as int][coord.col as int],
{
}

/// Events at other switches, whatever layers they activate or release,
/// leave what a switch has captured.
pub proof fn lemma_capture_survives(
    table: Seq<Seq<Seq<ActionModel>>>,
    state: ResolverState,
    events: Seq<Event>,
    coord: Coord,
)
    requires
        in_matrix(state.held, coord),
        forall|i: int| 0 <= i < events.len() ==> (#[trigger] events[i]).coord != coord,
    ensures
        in_matrix(run_events(table, state, events).held, coord),
        run_events(table, state, events).held[coord.row as int][coord.col as int]
            == state.held[coord.row as int][coord.col as int],
    decreases events.len(),
{
    if events.len() > 0 {
        let earlier = events.drop_last();
        assert forall|i: int| 0 <= i < earlier.len() implies (#[trigger] earlier[i]).coord
            != coord by {
            assert(earlier[i] == events[i]);
        }
        lemma_capture_survives(table, state, earlier, coord);
        assert(events[events.len() - 1].coord != coord);
        lemma_other_key_keeps_capture(
            table,
            run_events(table, state, earlier),
            events.last(),
            coord,
        );
    }
}

/// The release of a switch takes away the codes that its press added,
/// whatever happened at other switches in between: the action is the one
/// that the press captured, not the one that the layers active at the
/// release would give.
pub proof fn lemma_release_takes_what_press_gave(
    table: Seq<Seq<Seq<ActionModel>>>,
    state: ResolverState,
    events: Seq<Event>,
    coord: Coord,
)
    requires
        in_matrix(state.held, coord),
        state.held[coord.row as int][coord.col as int] is None,
        forall|i: int| 0 <= i < events.len() ==> (#[trigger] events[i]).coord != coord,
    ensures
        delta_codes(
            table,
            run_events(table, press(table, state, coord), events),
            Event { coord, direction: Direction::Release },
        ) == delta_codes(table, state, Event { coord, direction: Direction::Press }),
{
    let pressed = press(table, state, coord);
    lemma_capture_survives(table, pressed, events, coord);
}

proof fn lemma_row_codes_contains(row: Seq<Option<ActionModel>>, upto: int, code: u8)
    requires
        0 <= upto <= row.len(),
    ensures
        row_codes(row, upto).contains(code) <==> exists|c: int|
            0 <= c < upto && #[trigger] key_codes(row[c]).contains(code),
    decreases upto,
{
    if upto > 0 {
        lemma_row_codes_contains(row, upto - 1, code);
        lemma_concat_contains(row_codes(row, upto - 1), key_codes(row[upto - 1]), code);
        if row_codes(row, upto - 1).contains(code) {
            let c: int = choose|c: int|
                0 <= c < upto - 1 && #[trigger] key_codes(row[c]).contains(code);
            assert(0 <= c < upto && key_codes(row[c]).contains(code));
        }
    }
}

proof fn lemma_concat_contains(head: Seq<u8>, tail: Seq<u8>, code: u8)
    ensures
        (head + tail).contains(code) <==> head.contains(code) || tail.contains(code),
{
    if head.contains(code) {
        let i: int = choose|i: int| 0 <= i < head.len() && head[i] == code;
        assert((head + tail)[i] == code);
    }
    if tail.contains(code) {
        let i: int = choose|i: int| 0 <= i < tail.len() && tail[i] == code;
        assert((head + tail)[head.len() + i] == code);
    }
    if (head + tail).contains(code) {
        let i: int = choose|i: int| 0 <= i < (head + tail).len() && (head + tail)[i] == code;
        if i < head.len() {
            assert(head[i] == code);
        } else {
            assert(tail[i - head.len()] == code);
        }
    }
}

proof fn lemma_grid_codes_contains(held: Seq<Seq<Option<ActionModel>>>, upto: int, code: u8)
    requires
        0 <= upto <= held.len(),
    ensures
        grid_codes(held, upto).contains(code) <==> exists|r: int, c: int|
            0 <= r < upto && 0 <= c < held[r].len() && #[trigger] key_codes(held[r][c]).contains(
                code,
            ),
    decreases upto,
{
    if upto > 0 {
        let row: int = upto - 1;
        lemma_grid_codes_contains(held, row, code);
        lemma_row_codes_contains(held[row], held[row].len() as int, code);
        lemma_concat_contains(
            grid_codes(held, row),
            row_codes(held[row], held[row].len() as int),
            code,
        );
        if grid_codes(held, row).contains(code) {
            let (r, c): (int, int) = choose|r: int, c: int|
                0 <= r < row && 0 <= c < held[r].len() && #[trigger] key_codes(
                    held[r][c],
                ).contains(code);
            assert(0 <= r < upto && 0 <= c < held[r].len() && key_codes(held[r][c]).contains(code));
        }
        if row_codes(held[row], held[row].len() as int).contains(code) {
            let c: int = choose|c: int|
                0 <= c < held[row].len() && #[trigger] key_codes(held[row][c]).contains(code);
            assert(0 <= row < upto && 0 <= c < held[row].len() && key_codes(
                held[row][c],
            ).contains(code));
        }
    }
}

/// A code is held exactly when the action that some held switch has
/// captured carries it.
pub proof fn lemma_live_codes_contains(held: Seq<Seq<Option<ActionModel>>>, code: u8)
    ensures
        live_codes(held).contains(code) <==> exists|r: int, c: int|
            0 <= r < held.len() && 0 <= c < held[r].len() && #[trigger] key_codes(
                held[r][c],
            ).contains(code),
{
    lemma_grid_codes_contains(held, held.len() as int, code);
}

} // verus!
