//! Walking a transition table: the text that a random source draws from it.

use crate::random::RandomSource;
use crate::table::StateTable;
use vstd::prelude::*;

verus! {

/// Where a walk stands when it ends: the text it has emitted and the source
/// as the walk leaves it.
pub struct Walk {
    pub text: Seq<char>,
    pub source: RandomSource,
}

/// The state that follows `state`: one of its successors, picked by
/// `source`; or, where it has none, one of the keys, picked by `source`.
pub open spec fn next_state(
    table: Map<Seq<char>, Seq<Seq<char>>>,
    keys: Seq<Seq<char>>,
    state: Seq<char>,
    source: RandomSource,
) -> Seq<char> {
    let successors = table[state];
    if successors.len() > 0 {
        successors[source.pick(successors.len()) as int]
    } else {
        keys[source.pick(keys.len()) as int]
    }
}

/// The walk that starts in `state` and still owes `remaining` units: the
/// state is emitted whole; if that does not pay what is owed, the source
/// picks the next state and the walk goes on from there.
pub open spec fn walk_from(
    table: Map<Seq<char>, Seq<Seq<char>>>,
    keys: Seq<Seq<char>>,
    state: Seq<char>,
    source: RandomSource,
    remaining: nat,
) -> Walk
    decreases remaining,
{
    if remaining == 0 {
        Walk { text: Seq::empty(), source }
    } else if state.len() == 0 || state.len() >= remaining {
        Walk { text: state, source }
    } else {
        let rest = walk_from(
            table,
            keys,
            next_state(table, keys, state, source),
            source.after_pick(),
            (remaining - state.len()) as nat,
        );
        Walk { text: state + rest.text, source: rest.source }
    }
}

/// The walk of at least `target` units over a table: nothing at all for a
/// target of zero; else the source picks the first state among the keys, and
/// the walk goes on from there.
pub open spec fn walk(
    table: Map<Seq<char>, Seq<Seq<char>>>,
    keys: Seq<Seq<char>>,
    source: RandomSource,
    target: nat,
) -> Walk {
    if target == 0 {
        Walk { text: Seq::empty(), source }
    } else {
        walk_from(table, keys, keys[source.pick(keys.len()) as int], source.after_pick(), target)
    }
}

/// Generates text of at least `generated_string_length` characters by
/// walking `states`.
///
/// The first state is a key that `source` picks. Each state is appended
/// whole to the text; then `source` picks one of the state's successors as
/// the next state, or, where the state has no successor, one of the keys.
/// The walk ends as soon as the text is long enough, so the text is less
/// than one grouping longer than asked. The text and the source afterwards
/// depend on the table, the source and the length alone.
pub fn generate_text_from_state_table(
    states: &StateTable,
    generated_string_length: usize,
    source: &mut RandomSource,
) -> (text: String)
    ensures
        text@ == walk(
            states@,
            states.keys(),
            *old(source),
            generated_string_length as nat,
        ).text,
        *final(source) == walk(
            states@,
            states.keys(),
            *old(source),
            generated_string_length as nat,
        ).source,
        generated_string_length <= text@.len() < generated_string_length + states.spec_order(),
{
    let mut text = String::new();
    let order = states.order();
    if generated_string_length == 0 {
        return text;
    }
    let count = states.len();
    let ghost whole = walk(states@, states.keys(), *source, generated_string_length as nat);
    let mut state = source.uniform(count);
    let mut remaining = generated_string_length;
    while remaining > 0
        invariant
            count == states.keys().len(),
            order == states.spec_order(),
            order >= 1,
            remaining > 0 ==> {
                &&& state < count
                &&& text@.len() + remaining == generated_string_length
                &&& whole.text == text@ + walk_from(
                    states@,
                    states.keys(),
                    states.keys()[state as int],
                    *source,
                    remaining as nat,
                ).text
                &&& whole.source == walk_from(
                    states@,
                    states.keys(),
                    states.keys()[state as int],
                    *source,
                    remaining as nat,
                ).source
            },
            remaining == 0 ==> {
                &&& whole.text == text@
                &&& whole.source == *source
                &&& generated_string_length <= text@.len() < generated_string_length + order
            },
        decreases remaining,
    {
        let len = states.append_key(state, &mut text);
        if len >= remaining {
            remaining = 0;
        } else {
            let successors = states.successor_count(state);
            if successors > 0 {
                let at = source.uniform(successors);
                state = states.successor(state, at);
            } else {
                state = source.uniform(count);
            }
            remaining -= len;
        }
    }
    text
}

/// A walk is repeatable: the same table, the same source and the same
/// target give the same text and leave the source in the same state.
pub proof fn lemma_walks_repeat(
    first: StateTable,
    second: StateTable,
    first_source: RandomSource,
    second_source: RandomSource,
    target: nat,
)
    requires
        first.sample() == second.sample(),
        first.spec_order() == second.spec_order(),
        first_source == second_source,
    ensures
        walk(first@, first.keys(), first_source, target) == walk(
            second@,
            second.keys(),
            second_source,
            target,
        ),
{
}

} // verus!
