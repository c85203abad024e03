//! The action table and the lookup through the active layers.

use vstd::prelude::*;
use crate::action::{Action, ActionModel};
use crate::grid::rectangular;

verus! {

/// Why a table of actions is not a layout.
#[derive(Clone, Copy, Debug, PartialEq, Eq, Structural)]
pub enum LayoutError {
    /// There is no base layer.
    NoLayers,
    /// A layer does not have the dimensions of the matrix.
    DimensionMismatch,
    /// The base layer has a transparent cell.
    TransparentInBase,
    /// A cell holds a layer that the table does not have.
    UnknownLayer,
    /// A chord has fewer than two key codes.
    ShortChord,
}

/// A rule that every cell of a layout obeys.
pub enum Rule {
    BaseComplete,
    LayersKnown,
    ChordsWhole,
}

/// Whether `action`, found on layer `layer` of a table of `depth` layers,
/// obeys `rule`.
pub open spec fn obeys(rule: Rule, action: ActionModel, layer: int, depth: int) -> bool {
    match rule {
        Rule::BaseComplete => layer == 0 ==> !(action is Transparent),
        Rule::LayersKnown => action matches ActionModel::LayerHold(held) ==> held < depth,
        Rule::ChordsWhole => action matches ActionModel::Chord(codes) ==> codes.len() >= 2,
    }
}

/// Whether every cell of `table` obeys `rule`.
pub open spec fn all_obey(table: Seq<Seq<Seq<ActionModel>>>, rule: Rule) -> bool {
    forall|l: int, r: int, c: int|
        0 <= l < table.len() && 0 <= r < table[l].len() && 0 <= c < table[l][r].len() ==> obeys(
            rule,
            #[trigger] table[l][r][c],
            l,
            table.len() as int,
        )
}

/// Whether every layer of `table` has `rows` rows of `cols` cells.
pub open spec fn shaped(table: Seq<Seq<Seq<ActionModel>>>, rows: int, cols: int) -> bool {
    forall|l: int| 0 <= l < table.len() ==> rectangular(#[trigger] table[l], rows, cols)
}

/// The first reason, if any, for which `table` is no layout for a matrix of
/// `rows` by `cols` switches.
pub open spec fn defect(table: Seq<Seq<Seq<ActionModel>>>, rows: int, cols: int) -> Option<
    LayoutError,
> {
    if table.len() == 0 {
        Some(LayoutError::NoLayers)
    } else if !shaped(table, rows, cols) {
        Some(LayoutError::DimensionMismatch)
    } else if !all_obey(table, Rule::BaseComplete) {
        Some(LayoutError::TransparentInBase)
    } else if !all_obey(table, Rule::LayersKnown) {
        Some(LayoutError::UnknownLayer)
    } else if !all_obey(table, Rule::ChordsWhole) {
        Some(LayoutError::ShortChord)
    } else {
        None
    }
}

/// One row of actions as mathematical values.
pub open spec fn row_of(row: Seq<Action>) -> Seq<ActionModel> {
    Seq::new(row.len(), |c: int| row[c]@)
}

/// One layer of actions as mathematical values.
pub open spec fn layer_of(layer: Seq<Vec<Action>>) -> Seq<Seq<ActionModel>> {
    Seq::new(layer.len(), |r: int| row_of(layer[r]@))
}

/// A table of actions as mathematical values, by layer, row and column.
pub open spec fn table_of(layers: Seq<Vec<Vec<Action>>>) -> Seq<Seq<Seq<ActionModel>>> {
    Seq::new(layers.len(), |l: int| layer_of(layers[l]@))
}

/// The layer that decides what the switch at `row`, `col` does: the most
/// recently activated layer of `stack` whose cell is not transparent, or the
/// base layer where there is none. The most recent activation is last.
pub open spec fn resolving_layer(
    table: Seq<Seq<Seq<ActionModel>>>,
    stack: Seq<usize>,
    row: int,
    col: int,
) -> int
    decreases stack.len(),
{
    if stack.len() == 0 {
        0
    } else if table[stack.last() as int][row][col] is Transparent {
        resolving_layer(table, stack.drop_last(), row, col)
    } else {
        stack.last() as int
    }
}

/// The action of the switch at `row`, `col` under the active layers `stack`.
pub open spec fn lookup(
    table: Seq<Seq<Seq<ActionModel>>>,
    stack: Seq<usize>,
    row: int,
    col: int,
) -> ActionModel {
    table[resolving_layer(table, stack, row, col)][row][col]
}

/// Whether every entry of `stack` is a layer of a table of `depth` layers.
pub open spec fn layers_exist(stack: Seq<usize>, depth: int) -> bool {
    forall|i: int| 0 <= i < stack.len() ==> (#[trigger] stack[i]) < depth
}

fn row_obeys(row: &Vec<Action>, rule: &Rule, layer: usize, depth: usize) -> (ok: bool)
    ensures
        ok <==> forall|c: int|
            0 <= c < row@.len() ==> obeys(*rule, #[trigger] row_of(row@)[c], layer as int, depth as int),
{
    let mut c: usize = 0;
    while c < row.len()
        invariant
            c <= row@.len(),
            forall|j: int|
                0 <= j < c ==> obeys(
                    *rule,
                    #[trigger] row_of(row@)[j],
                    layer as int,
                    depth as int,
                ),
        decreases row@.len() - c,
    {
        let fine = match rule {
            Rule::BaseComplete => match &row[c] {
                Action::Transparent => layer != 0,
                _ => true,
            },
            Rule::LayersKnown => match &row[c] {
                Action::LayerHold(held) => *held < depth,
                _ => true,
            },
            Rule::ChordsWhole => match &row[c] {
                Action::Chord(codes) => codes.len() >= 2,
                _ => true,
            },
        };
        assert(fine == obeys(*rule, row_of(row@)[c as int], layer as int, depth as int));
        if !fine {
            return false;
        }
        c += 1;
    }
    true
}

fn layer_obeys(cells: &Vec<Vec<Action>>, rule: &Rule, layer: usize, depth: usize) -> (ok: bool)
    ensures
        ok <==> forall|r: int, c: int|
            0 <= r < cells@.len() && 0 <= c < layer_of(cells@)[r].len() ==> obeys(
                *rule,
                #[trigger] layer_of(cells@)[r][c],
                layer as int,
                depth as int,
            ),
{
    let mut r: usize = 0;
    while r < cells.len()
        invariant
            r <= cells@.len(),
            forall|i: int, c: int|
                0 <= i < r && 0 <= c < layer_of(cells@)[i].len() ==> obeys(
                    *rule,
                    #[trigger] layer_of(cells@)[i][c],
                    layer as int,
                    depth as int,
                ),
        decreases cells@.len() - r,
    {
        assert(layer_of(cells@)[r as int] == row_of(cells@[r as int]@));
        if !row_obeys(&cells[r], rule, layer, depth) {
            proof {
                let c: int = choose|c: int|
                    0 <= c < cells@[r as int]@.len() && !obeys(
                        *rule,
                        #[trigger] row_of(cells@[r as int]@)[c],
                        layer as int,
                        depth as int,
                    );
                assert(!obeys(*rule, layer_of(cells@)[r as int][c], layer as int, depth as int));
            }
            return false;
        }
        r += 1;
    }
    true
}

fn table_obeys(layers: &Vec<Vec<Vec<Action>>>, rule: &Rule) -> (ok: bool)
    ensures
        ok <==> all_obey(table_of(layers@), *rule),
{
    let depth: usize = layers.len();
    let mut l: usize = 0;
    while l < depth
        invariant
            l <= depth,
            depth == layers@.len(),
            forall|k: int, r: int, c: int|
                0 <= k < l && 0 <= r < table_of(layers@)[k].len() && 0 <= c < table_of(
                    layers@,
                )[k][r].len() ==> obeys(
                    *rule,
                    #[trigger] table_of(layers@)[k][r][c],
                    k,
                    depth as int,
                ),
        decreases depth - l,
    {
        assert(table_of(layers@)[l as int] == layer_of(layers@[l as int]@));
        if !layer_obeys(&layers[l], rule, l, depth) {
            proof {
                let (r, c): (int, int) = choose|r: int, c: int|
                    0 <= r < layers@[l as int]@.len() && 0 <= c < layer_of(
                        layers@[l as int]@,
                    )[r].len() && !obeys(
                        *rule,
                        #[trigger] layer_of(layers@[l as int]@)[r][c],
                        l as int,
                        depth as int,
                    );
                assert(!obeys(*rule, table_of(layers@)[l as int][r][c], l as int, depth as int));
            }
            return false;
        }
        l += 1;
    }
    true
}

fn layer_shaped(cells: &Vec<Vec<Action>>, rows: usize, cols: usize) -> (ok: bool)
    ensures
        ok <==> rectangular(layer_of(cells@), rows as int, cols as int),
{
    if cells.len() != rows {
        return false;
    }
    let mut r: usize = 0;
    while r < rows
        invariant
            r <= rows,
            rows == cells@.len(),
            forall|i: int| 0 <= i < r ==> (#[trigger] layer_of(cells@)[i]).len() == cols,
        decreases rows - r,
    {
        if cells[r].len() != cols {
            assert(layer_of(cells@)[r as int].len() != cols);
            return false;
        }
        r += 1;
    }
    true
}

fn table_shaped(layers: &Vec<Vec<Vec<Action>>>, rows: usize, cols: usize) -> (ok: bool)
    ensures
        ok <==> shaped(table_of(layers@), rows as int, cols as int),
{
    let mut l: usize = 0;
    while l < layers.len()
        invariant
            l <= layers@.len(),
            forall|k: int|
                0 <= k < l ==> rectangular(
                    #[trigger] table_of(layers@)[k],
                    rows as int,
                    cols as int,
                ),
        decreases layers@.len() - l,
    {
        assert(table_of(layers@)[l as int] == layer_of(layers@[l as int]@));
        if !layer_shaped(&layers[l], rows, cols) {
            return false;
        }
        l += 1;
    }
    true
}

/// A validated action table for a matrix of fixed dimensions.
pub struct Layout {
    layers: Vec<Vec<Vec<Action>>>,
    rows: usize,
    cols: usize,
}

impl View for Layout {
    type V = Seq<Seq<Seq<ActionModel>>>;

    /// The actions by layer, row and column; layer 0 is the base layer.
    closed spec fn view(&self) -> Seq<Seq<Seq<ActionModel>>> {
        table_of(self.layers@)
    }
}

impl Layout {
    /// Number of rows of the matrix.
    pub closed spec fn height(&self) -> int {
        self.rows as int
    }

    /// Number of columns of the matrix.
    pub closed spec fn width(&self) -> int {
        self.cols as int
    }

    /// The table has no defect.
    pub open spec fn wf(&self) -> bool {
        defect(self@, self.height(), self.width()) is None
    }

    /// Makes a layout of `layers` for a matrix of `rows` by `cols` switches,
    /// or says what is wrong with the table.
    pub fn new(layers: Vec<Vec<Vec<Action>>>, rows: usize, cols: usize) -> (result: Result<
        Layout,
        LayoutError,
    >)
        ensures
            match result {
                Ok(layout) => {
                    &&& defect(table_of(layers@), rows as int, cols as int) is None
                    &&& layout.wf()
                    &&& layout@ == table_of(layers@)
                    &&& layout.height() == rows
                    &&& layout.width() == cols
                },
                Err(error) => defect(table_of(layers@), rows as int, cols as int) == Some(error),
            },
    {
        if layers.len() == 0 {
            return Err(LayoutError::NoLayers);
        }
        if !table_shaped(&layers, rows, cols) {
            return Err(LayoutError::DimensionMismatch);
        }
        if !table_obeys(&layers, &Rule::BaseComplete) {
            return Err(LayoutError::TransparentInBase);
        }
        if !table_obeys(&layers, &Rule::LayersKnown) {
            return Err(LayoutError::UnknownLayer);
        }
        if !table_obeys(&layers, &Rule::ChordsWhole) {
            return Err(LayoutError::ShortChord);
        }
        Ok(Layout { layers, rows, cols })
    }

    /// Number of layers.
    pub fn depth(&self) -> (n: usize)
        ensures
            n == self@.len(),
    {
        self.layers.len()
    }

    /// Number of rows of the matrix.
    pub fn rows(&self) -> (n: usize)
        ensures
            n == self.height(),
    {
        self.rows
    }

    /// Number of columns of the matrix.
    pub fn cols(&self) -> (n: usize)
        ensures
            n == self.width(),
    {
        self.cols
    }

    /// The action bound to the switch at `row`, `col` on `layer`.
    pub fn action(&self, layer: usize, row: usize, col: usize) -> (action: &Action)
        requires
            self.wf(),
            layer < self@.len(),
            row < self.height(),
            col < self.width(),
        ensures
            action@ == self@[layer as int][row as int][col as int],
    {
        proof {
            self.lemma_shape();
        }
        assert(self@[layer as int] == layer_of(self.layers@[layer as int]@));
        assert(self@[layer as int][row as int] == row_of(self.layers@[layer as int]@[row as int]@));
        &self.layers[layer][row][col]
    }

    /// The layer that decides what the switch at `row`, `col` does while the
    /// layers of `stack` are active.
    pub fn resolve(&self, stack: &Vec<usize>, row: usize, col: usize) -> (layer: usize)
        requires
            self.wf(),
            layers_exist(stack@, self@.len() as int),
            row < self.height(),
            col < self.width(),
        ensures
            layer == resolving_layer(self@, stack@, row as int, col as int),
            layer < self@.len(),
    {
        let mut top: usize = stack.len();
        assert(stack@.take(top as int) =~= stack@);
        while top > 0
            invariant
                self.wf(),
                layers_exist(stack@, self@.len() as int),
                row < self.height(),
                col < self.width(),
                top <= stack@.len(),
                resolving_layer(self@, stack@, row as int, col as int) == resolving_layer(
                    self@,
                    stack@.take(top as int),
                    row as int,
                    col as int,
                ),
            decreases top,
        {
            let layer: usize = stack[top - 1];
            assert(stack@.take(top as int).last() == layer);
            assert(stack@.take(top as int).drop_last() =~= stack@.take(top as int - 1));
            match self.action(layer, row, col) {
                Action::Transparent => {},
                _ => {
                    return layer;
                },
            }
            top -= 1;
        }
        assert(stack@.take(0).len() == 0);
        proof {
            self.lemma_shape();
        }
        0
    }

    /// A well-formed layout has a base layer, and every layer has the
    /// dimensions of the matrix.
    pub proof fn lemma_shape(&self)
        requires
            self.wf(),
        ensures
            self@.len() > 0,
            shaped(self@, self.height(), self.width()),
            forall|l: int, r: int|
                0 <= l < self@.len() && 0 <= r < self.height() ==> (#[trigger] self@[l][r]).len()
                    == self.width(),
            forall|l: int| 0 <= l < self@.len() ==> (#[trigger] self@[l]).len() == self.height(),
            all_obey(self@, Rule::BaseComplete),
            all_obey(self@, Rule::LayersKnown),
            all_obey(self@, Rule::ChordsWhole),
    {
        assert forall|l: int, r: int| 0 <= l < self@.len() && 0 <= r < self.height() implies (
        #[trigger] self@[l][r]).len() == self.width() by {
            assert(rectangular(self@[l], self.height(), self.width()));
        }
        assert forall|l: int| 0 <= l < self@.len() implies (#[trigger] self@[l]).len()
            == self.height() by {
            assert(rectangular(self@[l], self.height(), self.width()));
        }
    }
}

/// Under a layout, lookup ends on a layer of the table and never yields a
/// transparent action.
pub proof fn lemma_lookup_is_concrete(
    table: Seq<Seq<Seq<ActionModel>>>,
    rows: int,
    cols: int,
    stack: Seq<usize>,
    row: int,
    col: int,
)
    requires
        defect(table, rows, cols) is None,
        layers_exist(stack, table.len() as int),
        0 <= row < rows,
        0 <= col < cols,
    ensures
        0 <= resolving_layer(table, stack, row, col) < table.len(),
        !(lookup(table, stack, row, col) is Transparent),
    decreases stack.len(),
{
    if stack.len() == 0 {
        assert(rectangular(table[0], rows, cols));
        assert(obeys(Rule::BaseComplete, table[0][row][col], 0, table.len() as int));
    } else if table[stack.last() as int][row][col] is Transparent {
        assert forall|i: int| 0 <= i < stack.drop_last().len() implies (
        #[trigger] stack.drop_last()[i]) < table.len() by {
            assert(stack.drop_last()[i] == stack[i]);
        }
        lemma_lookup_is_concrete(table, rows, cols, stack.drop_last(), row, col);
    } else {
        assert(stack[stack.len() - 1] < table.len());
    }
}

/// A switch that is transparent on every active layer does what the base
/// layer says.
pub proof fn lemma_transparent_falls_to_base(
    table: Seq<Seq<Seq<ActionModel>>>,
    stack: Seq<usize>,
    row: int,
    col: int,
)
    requires
        forall|i: int|
            0 <= i < stack.len() ==> table[(#[trigger] stack[i]) as int][row][col] is Transparent,
    ensures
        resolving_layer(table, stack, row, col) == 0,
        lookup(table, stack, row, col) == table[0][row][col],
    decreases stack.len(),
{
    if stack.len() > 0 {
        assert(table[stack[stack.len() - 1] as int][row][col] is Transparent);
        assert forall|i: int| 0 <= i < stack.drop_last().len() implies table[(
        #[trigger] stack.drop_last()[i]) as int][row][col] is Transparent by {
            assert(stack.drop_last()[i] == stack[i]);
        }
        lemma_transparent_falls_to_base(table, stack.drop_last(), row, col);
    }
}

/// The layer that was activated last decides, unless its cell is
/// transparent; then the layers below it decide as if it were not active.
pub proof fn lemma_latest_layer_wins(
    table: Seq<Seq<Seq<ActionModel>>>,
    stack: Seq<usize>,
    layer: usize,
    row: int,
    col: int,
)
    ensures
        !(table[layer as int][row][col] is Transparent) ==> lookup(
            table,
            stack.push(layer),
            row,
            col,
        ) == table[layer as int][row][col],
        table[layer as int][row][col] is Transparent ==> lookup(
            table,
            stack.push(layer),
            row,
            col,
        ) == lookup(table, stack, row, col),
{
    assert(stack.push(layer).last() == layer);
    assert(stack.push(layer).drop_last() =~= stack);
}

} // verus!
