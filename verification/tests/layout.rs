use key_pipeline::action::Action;
use key_pipeline::layout::{Layout, LayoutError};

const A: u8 = 0x04;
const B: u8 = 0x05;
const C: u8 = 0x06;
const GRAVE: u8 = 0x35;
const LSHIFT: u8 = 0xE1;

fn k(code: u8) -> Action {
    Action::Key(code)
}

fn l(layer: usize) -> Action {
    Action::LayerHold(layer)
}

fn three_layers() -> Layout {
    // One row of four switches.
    Layout::new(
        vec![
            vec![vec![k(A), l(1), l(2), Action::NoOp]],
            vec![vec![k(B), Action::Transparent, Action::Transparent, Action::Transparent]],
            vec![vec![k(C), Action::Transparent, Action::Transparent, k(GRAVE)]],
        ],
        1,
        4,
    )
    .unwrap()
}

#[test]
fn layout_keeps_the_table() {
    let layout = three_layers();
    assert_eq!(layout.depth(), 3);
    assert_eq!(layout.rows(), 1);
    assert_eq!(layout.cols(), 4);
    assert_eq!(*layout.action(0, 0, 0), k(A));
    assert_eq!(*layout.action(0, 0, 1), l(1));
    assert_eq!(*layout.action(1, 0, 0), k(B));
    assert_eq!(*layout.action(2, 0, 3), k(GRAVE));
    assert_eq!(*layout.action(1, 0, 3), Action::Transparent);
}

#[test]
fn layout_without_layers_is_refused() {
    assert_eq!(Layout::new(vec![], 1, 1).err(), Some(LayoutError::NoLayers));
    assert_eq!(Layout::new(vec![], 0, 0).err(), Some(LayoutError::NoLayers));
}

#[test]
fn layout_with_missing_row_is_refused() {
    let layers = vec![vec![vec![k(A), k(B)]]];
    assert_eq!(Layout::new(layers, 2, 2).err(), Some(LayoutError::DimensionMismatch));
}

#[test]
fn layout_with_long_row_is_refused() {
    let layers = vec![vec![vec![k(A), k(B)], vec![k(A), k(B), k(C)]]];
    assert_eq!(Layout::new(layers, 2, 2).err(), Some(LayoutError::DimensionMismatch));
}

#[test]
fn layout_with_short_upper_layer_is_refused() {
    let layers = vec![vec![vec![k(A)], vec![k(B)]], vec![vec![k(C)]]];
    assert_eq!(Layout::new(layers, 2, 1).err(), Some(LayoutError::DimensionMismatch));
}

#[test]
fn transparent_base_cell_is_refused() {
    let layers = vec![vec![vec![k(A), Action::Transparent]]];
    assert_eq!(Layout::new(layers, 1, 2).err(), Some(LayoutError::TransparentInBase));
}

#[test]
fn transparent_upper_cell_is_accepted() {
    let layers = vec![vec![vec![k(A), l(1)]], vec![vec![Action::Transparent, Action::Transparent]]];
    assert!(Layout::new(layers, 1, 2).is_ok());
}

#[test]
fn hold_of_unknown_layer_is_refused() {
    let layers = vec![vec![vec![k(A), l(1)]]];
    assert_eq!(Layout::new(layers, 1, 2).err(), Some(LayoutError::UnknownLayer));
    let layers = vec![vec![vec![k(A), l(0)]]];
    assert!(Layout::new(layers, 1, 2).is_ok());
}

#[test]
fn short_chord_is_refused() {
    let layers = vec![vec![vec![Action::Chord(vec![LSHIFT])]]];
    assert_eq!(Layout::new(layers, 1, 1).err(), Some(LayoutError::ShortChord));
    let layers = vec![vec![vec![Action::Chord(vec![])]]];
    assert_eq!(Layout::new(layers, 1, 1).err(), Some(LayoutError::ShortChord));
    let layers = vec![vec![vec![Action::Chord(vec![LSHIFT, GRAVE])]]];
    assert!(Layout::new(layers, 1, 1).is_ok());
}

#[test]
fn first_defect_is_reported() {
    // Wrong shape and a transparent base cell: the shape comes first.
    let layers = vec![vec![vec![Action::Transparent]]];
    assert_eq!(Layout::new(layers, 1, 2).err(), Some(LayoutError::DimensionMismatch));
    // Transparent base cell and an unknown layer: the base layer comes first.
    let layers = vec![vec![vec![Action::Transparent, l(7)]]];
    assert_eq!(Layout::new(layers, 1, 2).err(), Some(LayoutError::TransparentInBase));
    // Unknown layer and a short chord: the layer comes first.
    let layers = vec![vec![vec![Action::Chord(vec![A]), l(7)]]];
    assert_eq!(Layout::new(layers, 1, 2).err(), Some(LayoutError::UnknownLayer));
}

#[test]
fn layout_for_an_empty_matrix_is_accepted() {
    let layout = Layout::new(vec![vec![]], 0, 0).unwrap();
    assert_eq!(layout.depth(), 1);
    assert_eq!(layout.rows(), 0);
    let layout = Layout::new(vec![vec![vec![], vec![]]], 2, 0).unwrap();
    assert_eq!(layout.rows(), 2);
    assert_eq!(layout.cols(), 0);
}

#[test]
fn empty_stack_resolves_on_the_base_layer() {
    let layout = three_layers();
    for col in 0..4 {
        assert_eq!(layout.resolve(&vec![], 0, col), 0);
    }
}

#[test]
fn latest_layer_wins() {
    let layout = three_layers();
    assert_eq!(layout.resolve(&vec![1, 2], 0, 0), 2);
    assert_eq!(layout.resolve(&vec![2, 1], 0, 0), 1);
    assert_eq!(layout.resolve(&vec![1], 0, 0), 1);
}

#[test]
fn transparent_cell_defers_to_the_layer_below() {
    let layout = three_layers();
    // Column 3 is transparent on layer 1 and bound on layer 2.
    assert_eq!(layout.resolve(&vec![2, 1], 0, 3), 2);
    assert_eq!(layout.resolve(&vec![1, 2], 0, 3), 2);
    assert_eq!(layout.resolve(&vec![1], 0, 3), 0);
}

#[test]
fn transparent_on_every_layer_falls_to_the_base() {
    let layout = three_layers();
    assert_eq!(layout.resolve(&vec![1, 2], 0, 1), 0);
    assert_eq!(layout.resolve(&vec![2, 1, 2, 1], 0, 2), 0);
    assert_eq!(*layout.action(layout.resolve(&vec![1, 2], 0, 1), 0, 1), l(1));
}

#[test]
fn held_base_layer_shadows_older_layers() {
    let layout = three_layers();
    assert_eq!(layout.resolve(&vec![1, 0], 0, 0), 0);
    assert_eq!(layout.resolve(&vec![0, 1], 0, 0), 1);
}
