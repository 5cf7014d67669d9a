use nodus::logic::{
    and_gate, apply_transition, nand_gate, nor_gate, not_gate, not_state, or_gate, xor_gate, State,
    Transition,
};

const U: State = State::Unknown;
const H: State = State::High;
const L: State = State::Low;

#[test]
fn state_defaults_to_unknown() {
    assert_eq!(State::default(), State::Unknown);
}

#[test]
fn not_truth_table() {
    assert_eq!(not_state(U), U);
    assert_eq!(not_state(H), L);
    assert_eq!(not_state(L), H);
    assert_eq!(not_gate(&[L]), H);
    assert_eq!(not_gate(&[H, L]), L);
    assert_eq!(not_gate(&[U]), U);
}

#[test]
fn not_twice_gives_back_the_value() {
    for s in [U, H, L] {
        assert_eq!(not_state(not_state(s)), s);
    }
}

#[test]
fn and_truth_table() {
    assert_eq!(and_gate(&[H, H]), H);
    assert_eq!(and_gate(&[H, L]), L);
    assert_eq!(and_gate(&[L, H]), L);
    assert_eq!(and_gate(&[L, L]), L);
    assert_eq!(and_gate(&[H, U]), U);
    assert_eq!(and_gate(&[U, L]), L);
    assert_eq!(and_gate(&[L, U]), L);
    assert_eq!(and_gate(&[]), H);
    assert_eq!(and_gate(&[H, H, H, H]), H);
}

#[test]
fn nand_truth_table() {
    assert_eq!(nand_gate(&[H, H]), L);
    assert_eq!(nand_gate(&[H, L]), H);
    assert_eq!(nand_gate(&[L, L]), H);
    assert_eq!(nand_gate(&[U, H]), U);
    assert_eq!(nand_gate(&[U, L]), H);
}

#[test]
fn or_truth_table() {
    assert_eq!(or_gate(&[L, L]), L);
    assert_eq!(or_gate(&[H, L]), H);
    assert_eq!(or_gate(&[L, H]), H);
    assert_eq!(or_gate(&[U, L]), U);
    assert_eq!(or_gate(&[U, H]), H);
    assert_eq!(or_gate(&[]), L);
}

#[test]
fn nor_truth_table() {
    assert_eq!(nor_gate(&[L, L]), H);
    assert_eq!(nor_gate(&[H, L]), L);
    assert_eq!(nor_gate(&[U, L]), U);
    assert_eq!(nor_gate(&[U, H]), L);
}

#[test]
fn xor_counts_high_inputs_and_is_unknown_on_unknown_inputs() {
    assert_eq!(xor_gate(&[L, L]), L);
    assert_eq!(xor_gate(&[H, L]), H);
    assert_eq!(xor_gate(&[H, H]), L);
    assert_eq!(xor_gate(&[H, H, H]), H);
    assert_eq!(xor_gate(&[U, H]), U);
    assert_eq!(xor_gate(&[U, U]), U);
    assert_eq!(xor_gate(&[H, L, U]), U);
    assert_eq!(xor_gate(&[]), L);
}

#[test]
fn nand_is_not_and_and_nor_is_not_or() {
    let cases: [[State; 2]; 9] = [
        [U, U], [U, H], [U, L], [H, U], [H, H], [H, L], [L, U], [L, H], [L, L],
    ];
    for c in cases.iter() {
        assert_eq!(nand_gate(c), not_state(and_gate(c)));
        assert_eq!(nor_gate(c), not_state(or_gate(c)));
    }
}

#[test]
fn de_morgan_on_values() {
    let c = [H, L, H];
    let negated = [not_state(c[0]), not_state(c[1]), not_state(c[2])];
    assert_eq!(not_state(and_gate(&c)), or_gate(&negated));
    assert_eq!(not_state(or_gate(&c)), and_gate(&negated));
}

#[test]
fn transitions_compute_their_gate() {
    let c = [H, L];
    assert_eq!(apply_transition(Transition::Not, &c), L);
    assert_eq!(apply_transition(Transition::And, &c), L);
    assert_eq!(apply_transition(Transition::Nand, &c), H);
    assert_eq!(apply_transition(Transition::Or, &c), H);
    assert_eq!(apply_transition(Transition::Nor, &c), L);
    assert_eq!(apply_transition(Transition::Xor, &c), H);
    assert_eq!(apply_transition(Transition::High, &[]), H);
    assert_eq!(apply_transition(Transition::Low, &[]), L);
    assert_eq!(apply_transition(Transition::Buffer, &[L]), L);
    assert_eq!(apply_transition(Transition::Buffer, &[H]), H);
}
