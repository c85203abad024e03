//! What a key does when it is pressed.

use vstd::prelude::*;

verus! {

/// The binding of one switch on one layer.
#[derive(Clone, Debug, PartialEq, Eq)]
pub enum Action {
    /// Does nothing.
    NoOp,
    /// Defers to the next active layer below.
    Transparent,
    /// One key code.
    Key(u8),
    /// Several key codes that go down and up together, in this order.
    Chord(Vec<u8>),
    /// Keeps a layer active while the key is held.
    LayerHold(usize),
}

/// An action as a mathematical value.
pub enum ActionModel {
    NoOp,
    Transparent,
    Key(u8),
    Chord(Seq<u8>),
    LayerHold(usize),
}

impl View for Action {
    type V = ActionModel;

    open spec fn view(&self) -> ActionModel {
        match self {
            Action::NoOp => ActionModel::NoOp,
            Action::Transparent => ActionModel::Transparent,
            Action::Key(code) => ActionModel::Key(*code),
            Action::Chord(codes) => ActionModel::Chord(codes@),
            Action::LayerHold(layer) => ActionModel::LayerHold(*layer),
        }
    }
}

/// The key codes that a held key with this action contributes, in order.
pub open spec fn codes(action: ActionModel) -> Seq<u8> {
    match action {
        ActionModel::Key(code) => seq![code],
        ActionModel::Chord(codes) => codes,
        _ => Seq::empty(),
    }
}

} // verus!
