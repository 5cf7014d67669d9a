//! Signal values and the transition functions of the logic components.
use vstd::prelude::*;

verus! {

/// The value of an input or an output of a logic component.
///
/// `Unknown`: the value is unknown, for example because a gate does not get a
/// value for each of its inputs. `High`: the value is `1`. `Low`: the value
/// is `0`.
#[derive(Debug, Clone, Copy, PartialEq, Eq, Structural, Hash)]
pub enum State {
    Unknown,
    High,
    Low,
}

impl Default for State {
    fn default() -> (s: Self)
        ensures
            s == State::Unknown,
    {
        State::Unknown
    }
}

/// Logical negation; an unknown value stays unknown.
pub open spec fn spec_not(x: State) -> State {
    match x {
        State::Unknown => State::Unknown,
        State::Low => State::High,
        State::High => State::Low,
    }
}

/// AND of all inputs: `Low` as soon as one input is `Low`, otherwise unknown
/// if one input is unknown, otherwise `High` (also for no inputs at all).
pub open spec fn spec_and(s: Seq<State>) -> State {
    if s.contains(State::Low) {
        State::Low
    } else if s.contains(State::Unknown) {
        State::Unknown
    } else {
        State::High
    }
}

/// NAND of all inputs.
pub open spec fn spec_nand(s: Seq<State>) -> State {
    if s.contains(State::Low) {
        State::High
    } else if s.contains(State::Unknown) {
        State::Unknown
    } else {
        State::Low
    }
}

/// OR of all inputs: `High` as soon as one input is `High`, otherwise unknown
/// if one input is unknown, otherwise `Low` (also for no inputs at all).
pub open spec fn spec_or(s: Seq<State>) -> State {
    if s.contains(State::High) {
        State::High
    } else if s.contains(State::Unknown) {
        State::Unknown
    } else {
        State::Low
    }
}

/// NOR of all inputs.
pub open spec fn spec_nor(s: Seq<State>) -> State {
    if s.contains(State::High) {
        State::Low
    } else if s.contains(State::Unknown) {
        State::Unknown
    } else {
        State::High
    }
}

/// The number of `High` values in `s`.
pub open spec fn count_high(s: Seq<State>) -> nat
    decreases s.len(),
{
    if s.len() == 0 {
        0
    } else {
        count_high(s.drop_last()) + if s.last() == State::High {
            1nat
        } else {
            0nat
        }
    }
}

/// XOR of all inputs: unknown if one input is unknown, otherwise `High`
/// exactly when an odd number of inputs is `High`.
pub open spec fn spec_xor(s: Seq<State>) -> State {
    if s.contains(State::Unknown) {
        State::Unknown
    } else if count_high(s) % 2 == 1 {
        State::High
    } else {
        State::Low
    }
}

/// Membership in a sequence that was extended by one value.
pub proof fn lemma_contains_push(s: Seq<State>, x: State, y: State)
    ensures
        s.push(x).contains(y) <==> (s.contains(y) || x == y),
{
    if s.push(x).contains(y) {
        let k = choose|k: int| 0 <= k < s.push(x).len() && s.push(x)[k] == y;
        if k < s.len() {
            assert(s[k] == y);
        }
    }
    if s.contains(y) {
        let k = choose|k: int| 0 <= k < s.len() && s[k] == y;
        assert(s.push(x)[k] == y);
    }
    if x == y {
        assert(s.push(x)[s.len() as int] == y);
    }
}

/// Negation of a single value.
pub fn not_state(x: State) -> (r: State)
    ensures
        r == spec_not(x),
{
    match x {
        State::Unknown => State::Unknown,
        State::Low => State::High,
        State::High => State::Low,
    }
}

/// Transition function of the NOT gate: the negation of its first input.
pub fn not_gate(inputs: &[State]) -> (r: State)
    requires
        inputs@.len() >= 1,
    ensures
        r == spec_not(inputs@[0]),
{
    not_state(inputs[0])
}

/// Transition function of the AND gate.
pub fn and_gate(inputs: &[State]) -> (r: State)
    ensures
        r == spec_and(inputs@),
{
    let mut ret = State::High;
    let mut i: usize = 0;
    while i < inputs.len()
        invariant
            i <= inputs@.len(),
            !inputs@.take(i as int).contains(State::Low),
            ret == (if inputs@.take(i as int).contains(State::Unknown) {
                State::Unknown
            } else {
                State::High
            }),
        decreases inputs@.len() - i,
    {
        assert(inputs@.take(i as int + 1) =~= inputs@.take(i as int).push(inputs@[i as int]));
        proof {
            lemma_contains_push(inputs@.take(i as int), inputs@[i as int], State::Unknown);
            lemma_contains_push(inputs@.take(i as int), inputs@[i as int], State::Low);
        }
        match inputs[i] {
            State::Unknown => {
                ret = State::Unknown;
            },
            State::Low => {
                assert(inputs@.contains(State::Low)) by {
                    assert(inputs@[i as int] == State::Low);
                }
                return State::Low;
            },
            State::High => {},
        }
        i = i + 1;
    }
    assert(inputs@.take(i as int) =~= inputs@);
    ret
}

/// Transition function of the NAND gate.
pub fn nand_gate(inputs: &[State]) -> (r: State)
    ensures
        r == spec_nand(inputs@),
{
    let mut ret = State::Low;
    let mut i: usize = 0;
    while i < inputs.len()
        invariant
            i <= inputs@.len(),
            !inputs@.take(i as int).contains(State::Low),
            ret == (if inputs@.take(i as int).contains(State::Unknown) {
                State::Unknown
            } else {
                State::Low
            }),
        decreases inputs@.len() - i,
    {
        assert(inputs@.take(i as int + 1) =~= inputs@.take(i as int).push(inputs@[i as int]));
        proof {
            lemma_contains_push(inputs@.take(i as int), inputs@[i as int], State::Unknown);
            lemma_contains_push(inputs@.take(i as int), inputs@[i as int], State::Low);
        }
        match inputs[i] {
            State::Unknown => {
                ret = State::Unknown;
            },
            State::Low => {
                assert(inputs@.contains(State::Low)) by {
                    assert(inputs@[i as int] == State::Low);
                }
                return State::High;
            },
            State::High => {},
        }
        i = i + 1;
    }
    assert(inputs@.take(i as int) =~= inputs@);
    ret
}

/// Transition function of the OR gate.
pub fn or_gate(inputs: &[State]) -> (r: State)
    ensures
        r == spec_or(inputs@),
{
    let mut ret = State::Low;
    let mut i: usize = 0;
    while i < inputs.len()
        invariant
            i <= inputs@.len(),
            !inputs@.take(i as int).contains(State::High),
            ret == (if inputs@.take(i as int).contains(State::Unknown) {
                State::Unknown
            } else {
                State::Low
            }),
        decreases inputs@.len() - i,
    {
        assert(inputs@.take(i as int + 1) =~= inputs@.take(i as int).push(inputs@[i as int]));
        proof {
            lemma_contains_push(inputs@.take(i as int), inputs@[i as int], State::Unknown);
            lemma_contains_push(inputs@.take(i as int), inputs@[i as int], State::High);
        }
        match inputs[i] {
            State::Unknown => {
                ret = State::Unknown;
            },
            State::Low => {},
            State::High => {
                assert(inputs@.contains(State::High)) by {
                    assert(inputs@[i as int] == State::High);
                }
                return State::High;
            },
        }
        i = i + 1;
    }
    assert(inputs@.take(i as int) =~= inputs@);
    ret
}

/// Transition function of the NOR gate.
pub fn nor_gate(inputs: &[State]) -> (r: State)
    ensures
        r == spec_nor(inputs@),
{
    let mut ret = State::High;
    let mut i: usize = 0;
    while i < inputs.len()
        invariant
            i <= inputs@.len(),
            !inputs@.take(i as int).contains(State::High),
            ret == (if inputs@.take(i as int).contains(State::Unknown) {
                State::Unknown
            } else {
                State::High
            }),
        decreases inputs@.len() - i,
    {
        assert(inputs@.take(i as int + 1) =~= inputs@.take(i as int).push(inputs@[i as int]));
        proof {
            lemma_contains_push(inputs@.take(i as int), inputs@[i as int], State::Unknown);
            lemma_contains_push(inputs@.take(i as int), inputs@[i as int], State::High);
        }
        match inputs[i] {
            State::Unknown => {
                ret = State::Unknown;
            },
            State::Low => {},
            State::High => {
                assert(inputs@.contains(State::High)) by {
                    assert(inputs@[i as int] == State::High);
                }
                return State::Low;
            },
        }
        i = i + 1;
    }
    assert(inputs@.take(i as int) =~= inputs@);
    ret
}

/// Transition function of the XOR gate.
pub fn xor_gate(inputs: &[State]) -> (r: State)
    ensures
        r == spec_xor(inputs@),
{
    let mut unknown = false;
    let mut odd = false;
    let mut i: usize = 0;
    while i < inputs.len()
        invariant
            i <= inputs@.len(),
            unknown == inputs@.take(i as int).contains(State::Unknown),
            odd == (count_high(inputs@.take(i as int)) % 2 == 1),
        decreases inputs@.len() - i,
    {
        assert(inputs@.take(i as int + 1) =~= inputs@.take(i as int).push(inputs@[i as int]));
        proof {
            lemma_contains_push(inputs@.take(i as int), inputs@[i as int], State::Unknown);
        }
        assert(inputs@.take(i as int + 1).drop_last() =~= inputs@.take(i as int));
        match inputs[i] {
            State::Unknown => {
                unknown = true;
            },
            State::Low => {},
            State::High => {
                odd = !odd;
            },
        }
        i = i + 1;
    }
    assert(inputs@.take(i as int) =~= inputs@);
    if unknown {
        State::Unknown
    } else if odd {
        State::High
    } else {
        State::Low
    }
}

/// A transition function `f: inputs -> state` of a logic component.
///
/// Every gate has one transition function per output; it computes the
/// output's new value from the component's inputs.
#[derive(Debug, Clone, Copy, PartialEq, Eq, Structural)]
pub enum Transition {
    Not,
    And,
    Nand,
    Or,
    Nor,
    Xor,
    /// Always `High` (the HIGH constant).
    High,
    /// Always `Low` (the LOW constant).
    Low,
    /// The first input unchanged (the toggle switch).
    Buffer,
}

/// The number of inputs a transition function reads at least.
pub open spec fn min_inputs(t: Transition) -> nat {
    match t {
        Transition::Not => 1,
        Transition::Buffer => 1,
        _ => 0,
    }
}

/// The value a transition function computes from the inputs `s`.
pub open spec fn spec_apply(t: Transition, s: Seq<State>) -> State {
    match t {
        Transition::Not => spec_not(s[0]),
        Transition::And => spec_and(s),
        Transition::Nand => spec_nand(s),
        Transition::Or => spec_or(s),
        Transition::Nor => spec_nor(s),
        Transition::Xor => spec_xor(s),
        Transition::High => State::High,
        Transition::Low => State::Low,
        Transition::Buffer => s[0],
    }
}

/// Compute the value of transition function `t` on `inputs`.
pub fn apply_transition(t: Transition, inputs: &[State]) -> (r: State)
    requires
        inputs@.len() >= min_inputs(t),
    ensures
        r == spec_apply(t, inputs@),
{
    match t {
        Transition::Not => not_gate(inputs),
        Transition::And => and_gate(inputs),
        Transition::Nand => nand_gate(inputs),
        Transition::Or => or_gate(inputs),
        Transition::Nor => nor_gate(inputs),
        Transition::Xor => xor_gate(inputs),
        Transition::High => State::High,
        Transition::Low => State::Low,
        Transition::Buffer => inputs[0],
    }
}

/// Negation undoes itself.
pub proof fn law_not_involutive(x: State)
    ensures
        spec_not(spec_not(x)) == x,
{
}

/// A NAND gate computes the negation of an AND gate on the same inputs.
pub proof fn law_nand_is_not_and(s: Seq<State>)
    ensures
        spec_nand(s) == spec_not(spec_and(s)),
{
}

/// A NOR gate computes the negation of an OR gate on the same inputs.
pub proof fn law_nor_is_not_or(s: Seq<State>)
    ensures
        spec_nor(s) == spec_not(spec_or(s)),
{
}

/// Membership in the element-wise negation of a sequence.
proof fn lemma_contains_negated(s: Seq<State>, y: State)
    ensures
        s.map_values(|x: State| spec_not(x)).contains(spec_not(y)) <==> s.contains(y),
{
    let m = s.map_values(|x: State| spec_not(x));
    if s.contains(y) {
        let k = choose|k: int| 0 <= k < s.len() && s[k] == y;
        assert(m[k] == spec_not(y));
    }
    if m.contains(spec_not(y)) {
        let k = choose|k: int| 0 <= k < m.len() && m[k] == spec_not(y);
        assert(spec_not(s[k]) == spec_not(y));
        assert(s[k] == y);
    }
}

/// De Morgan: AND of the inputs is the negated OR of the negated inputs,
/// unknown values included.
pub proof fn law_and_de_morgan(s: Seq<State>)
    ensures
        spec_and(s) == spec_not(spec_or(s.map_values(|x: State| spec_not(x)))),
{
    lemma_contains_negated(s, State::Low);
    lemma_contains_negated(s, State::Unknown);
}

/// De Morgan: OR of the inputs is the negated AND of the negated inputs,
/// unknown values included.
pub proof fn law_or_de_morgan(s: Seq<State>)
    ensures
        spec_or(s) == spec_not(spec_and(s.map_values(|x: State| spec_not(x)))),
{
    lemma_contains_negated(s, State::High);
    lemma_contains_negated(s, State::Unknown);
}

/// A further `High` input flips a known XOR, a further `Low` input keeps
/// it, and a further unknown input makes it unknown.
pub proof fn law_xor_push(s: Seq<State>, x: State)
    ensures
        x == State::High && !s.contains(State::Unknown) ==> spec_xor(s.push(x)) == spec_not(spec_xor(s)),
        x == State::Low ==> spec_xor(s.push(x)) == spec_xor(s),
        x == State::Unknown ==> spec_xor(s.push(x)) == State::Unknown,
{
    assert(s.push(x).drop_last() =~= s);
    lemma_contains_push(s, x, State::Unknown);
}

/// The XOR gate outputs an unknown value exactly when one of its inputs is
/// unknown.
pub proof fn law_xor_known(s: Seq<State>)
    ensures
        (spec_xor(s) == State::Unknown) <==> s.contains(State::Unknown),
{
}

} // verus!
