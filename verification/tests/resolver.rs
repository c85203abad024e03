use key_pipeline::action::Action;
use key_pipeline::grid::{Coord, Direction, Event};
use key_pipeline::layout::Layout;
use key_pipeline::resolver::{Delta, Resolver};

const A: u8 = 0x04;
const B: u8 = 0x05;
const C: u8 = 0x06;
const D: u8 = 0x07;
const GRAVE: u8 = 0x35;
const LSHIFT: u8 = 0xE1;

fn k(code: u8) -> Action {
    Action::Key(code)
}

fn l(layer: usize) -> Action {
    Action::LayerHold(layer)
}

fn press(row: usize, col: usize) -> Event {
    Event { coord: Coord { row, col }, direction: Direction::Press }
}

fn release(row: usize, col: usize) -> Event {
    Event { coord: Coord { row, col }, direction: Direction::Release }
}

fn added(codes: &[u8]) -> Delta {
    Delta { direction: Direction::Press, codes: codes.to_vec() }
}

fn removed(codes: &[u8]) -> Delta {
    Delta { direction: Direction::Release, codes: codes.to_vec() }
}

/// Two rows of three switches on three layers.
fn resolver() -> Resolver {
    let base = vec![
        vec![k(A), l(1), l(2)],
        vec![Action::Chord(vec![LSHIFT, GRAVE]), Action::NoOp, l(1)],
    ];
    let one = vec![
        vec![k(B), Action::Transparent, Action::Transparent],
        vec![k(D), Action::Transparent, Action::Transparent],
    ];
    let two = vec![
        vec![k(C), Action::Transparent, Action::Transparent],
        vec![Action::Transparent, Action::Transparent, Action::Transparent],
    ];
    Resolver::new(Layout::new(vec![base, one, two], 2, 3).unwrap())
}

#[test]
fn new_resolver_holds_nothing() {
    let r = resolver();
    assert_eq!(r.rows(), 2);
    assert_eq!(r.cols(), 3);
    assert_eq!(r.held_codes(), vec![]);
    assert_eq!(*r.active_layers(), vec![]);
    for row in 0..2 {
        for col in 0..3 {
            assert!(!r.is_held(row, col));
        }
    }
}

#[test]
fn press_adds_and_release_removes() {
    let mut r = resolver();
    assert_eq!(r.apply(press(0, 0)), added(&[A]));
    assert!(r.is_held(0, 0));
    assert_eq!(r.held_codes(), vec![A]);
    assert_eq!(r.apply(release(0, 0)), removed(&[A]));
    assert!(!r.is_held(0, 0));
    assert_eq!(r.held_codes(), vec![]);
}

#[test]
fn press_then_release_is_a_round_trip() {
    let mut r = resolver();
    r.apply(press(0, 1));
    r.apply(press(1, 0));
    let codes = r.held_codes();
    let layers = r.active_layers().clone();
    for row in 0..2 {
        for col in 0..3 {
            if r.is_held(row, col) {
                continue;
            }
            r.apply(press(row, col));
            r.apply(release(row, col));
            assert_eq!(r.held_codes(), codes);
            assert_eq!(*r.active_layers(), layers);
        }
    }
}

#[test]
fn release_uses_the_action_captured_at_press() {
    let mut r = resolver();
    assert_eq!(r.apply(press(0, 0)), added(&[A]));
    // Layer 1 binds the same switch to B.
    assert_eq!(r.apply(press(0, 1)), added(&[]));
    assert_eq!(*r.active_layers(), vec![1]);
    assert_eq!(r.held_codes(), vec![A]);
    assert_eq!(r.apply(release(0, 0)), removed(&[A]));
    assert_eq!(r.held_codes(), vec![]);
    // Pressed again under layer 1, the switch gives B, and keeps it when the
    // layer goes away first.
    assert_eq!(r.apply(press(0, 0)), added(&[B]));
    assert_eq!(r.apply(release(0, 1)), removed(&[]));
    assert_eq!(*r.active_layers(), vec![]);
    assert_eq!(r.held_codes(), vec![B]);
    assert_eq!(r.apply(release(0, 0)), removed(&[B]));
    assert_eq!(r.held_codes(), vec![]);
}

#[test]
fn captured_action_does_not_follow_the_layers() {
    let mut r = resolver();
    assert_eq!(r.captured(0, 0), None);
    r.apply(press(0, 0));
    assert_eq!(r.captured(0, 0), Some(&k(A)));
    r.apply(press(0, 1));
    assert_eq!(r.captured(0, 1), Some(&l(1)));
    assert_eq!(r.captured(0, 0), Some(&k(A)));
    r.apply(press(0, 2));
    assert_eq!(r.captured(0, 0), Some(&k(A)));
    r.apply(release(0, 0));
    assert_eq!(r.captured(0, 0), None);
    r.apply(press(0, 0));
    assert_eq!(r.captured(0, 0), Some(&k(C)));
}

#[test]
fn layers_stack_in_order_of_activation() {
    let mut r = resolver();
    r.apply(press(0, 1));
    r.apply(press(0, 2));
    assert_eq!(*r.active_layers(), vec![1, 2]);
    assert_eq!(r.apply(press(0, 0)), added(&[C]));
    assert_eq!(r.apply(release(0, 0)), removed(&[C]));
    // Layer 2 goes, layer 1 is still held.
    r.apply(release(0, 2));
    assert_eq!(*r.active_layers(), vec![1]);
    assert_eq!(r.apply(press(0, 0)), added(&[B]));
    assert_eq!(r.apply(release(0, 0)), removed(&[B]));
    r.apply(release(0, 1));
    assert_eq!(*r.active_layers(), vec![]);
    assert_eq!(r.apply(press(0, 0)), added(&[A]));
}

#[test]
fn later_activation_shadows_whatever_the_layer_number() {
    let mut r = resolver();
    r.apply(press(0, 2));
    r.apply(press(0, 1));
    assert_eq!(*r.active_layers(), vec![2, 1]);
    assert_eq!(r.apply(press(0, 0)), added(&[B]));
}

#[test]
fn transparent_cell_falls_through_the_stack() {
    let mut r = resolver();
    r.apply(press(0, 1));
    r.apply(press(0, 2));
    // (1, 0) is transparent on layer 2 and bound to D on layer 1.
    assert_eq!(r.apply(press(1, 0)), added(&[D]));
    assert_eq!(r.apply(release(1, 0)), removed(&[D]));
    r.apply(release(0, 1));
    // Now only layer 2 is active: the switch falls to the base layer.
    assert_eq!(*r.active_layers(), vec![2]);
    assert_eq!(r.apply(press(1, 0)), added(&[LSHIFT, GRAVE]));
}

#[test]
fn release_of_an_older_layer_keeps_the_newer() {
    let mut r = resolver();
    r.apply(press(0, 1));
    r.apply(press(0, 2));
    r.apply(release(0, 1));
    assert_eq!(*r.active_layers(), vec![2]);
    assert_eq!(r.apply(press(0, 0)), added(&[C]));
}

#[test]
fn layer_held_by_two_keys_stays_until_both_are_released() {
    let mut r = resolver();
    r.apply(press(0, 1));
    r.apply(press(1, 2));
    assert_eq!(*r.active_layers(), vec![1, 1]);
    r.apply(release(0, 1));
    assert_eq!(*r.active_layers(), vec![1]);
    assert_eq!(r.apply(press(0, 0)), added(&[B]));
    r.apply(release(1, 2));
    assert_eq!(*r.active_layers(), vec![]);
}

#[test]
fn release_takes_the_latest_occurrence_of_the_layer() {
    let mut r = resolver();
    r.apply(press(0, 1));
    r.apply(press(0, 2));
    r.apply(press(1, 2));
    assert_eq!(*r.active_layers(), vec![1, 2, 1]);
    r.apply(release(0, 1));
    assert_eq!(*r.active_layers(), vec![1, 2]);
    r.apply(release(1, 2));
    assert_eq!(*r.active_layers(), vec![2]);
    r.apply(release(0, 2));
    assert_eq!(*r.active_layers(), vec![]);
}

#[test]
fn chord_goes_down_and_up_as_one() {
    let mut r = resolver();
    assert_eq!(r.apply(press(1, 0)), added(&[LSHIFT, GRAVE]));
    assert_eq!(r.held_codes(), vec![LSHIFT, GRAVE]);
    assert_eq!(r.apply(release(1, 0)), removed(&[LSHIFT, GRAVE]));
    assert_eq!(r.held_codes(), vec![]);
}

#[test]
fn no_op_does_nothing_on_either_edge() {
    let mut r = resolver();
    assert_eq!(r.apply(press(1, 1)), added(&[]));
    assert!(!r.is_held(1, 1));
    assert_eq!(r.held_codes(), vec![]);
    assert_eq!(*r.active_layers(), vec![]);
    assert_eq!(r.apply(release(1, 1)), removed(&[]));
    assert!(!r.is_held(1, 1));
}

#[test]
fn release_without_press_is_ignored() {
    let mut r = resolver();
    r.apply(press(0, 0));
    assert_eq!(r.apply(release(1, 0)), removed(&[]));
    assert_eq!(r.apply(release(0, 1)), removed(&[]));
    assert_eq!(r.held_codes(), vec![A]);
    assert_eq!(*r.active_layers(), vec![]);
}

#[test]
fn press_of_a_held_switch_is_ignored() {
    let mut r = resolver();
    assert_eq!(r.apply(press(0, 0)), added(&[A]));
    r.apply(press(0, 1));
    assert_eq!(r.apply(press(0, 0)), added(&[]));
    assert_eq!(r.apply(press(0, 1)), added(&[]));
    assert_eq!(r.held_codes(), vec![A]);
    assert_eq!(*r.active_layers(), vec![1]);
    assert_eq!(r.apply(release(0, 0)), removed(&[A]));
}

#[test]
fn event_outside_the_matrix_is_ignored() {
    let mut r = resolver();
    r.apply(press(0, 0));
    assert_eq!(r.apply(press(2, 0)), added(&[]));
    assert_eq!(r.apply(press(0, 3)), added(&[]));
    assert_eq!(r.apply(release(9, 9)), removed(&[]));
    assert_eq!(r.held_codes(), vec![A]);
}

#[test]
fn held_codes_follow_the_matrix_not_the_order_of_presses() {
    let mut r = resolver();
    r.apply(press(1, 0));
    r.apply(press(0, 0));
    assert_eq!(r.held_codes(), vec![A, LSHIFT, GRAVE]);
}

#[test]
fn tick_changes_nothing() {
    let mut r = resolver();
    r.apply(press(0, 0));
    r.apply(press(0, 1));
    r.tick();
    assert_eq!(r.held_codes(), vec![A]);
    assert_eq!(*r.active_layers(), vec![1]);
    assert!(r.is_held(0, 0));
}

#[test]
fn report_of_the_resolver_shows_the_held_keys() {
    let mut r = resolver();
    r.apply(press(1, 0));
    r.apply(press(0, 0));
    assert_eq!(r.report().as_bytes(), [0x02, 0, A, GRAVE, 0, 0, 0, 0]);
}
