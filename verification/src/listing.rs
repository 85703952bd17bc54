//! A transition table as text, for display.

use crate::table::StateTable;
use vstd::prelude::*;

verus! {

/// The successors `list` as text: a comma before each.
pub open spec fn successors_text(list: Seq<Seq<char>>) -> Seq<char>
    decreases list.len(),
{
    if list.len() == 0 {
        Seq::empty()
    } else {
        successors_text(list.drop_last()) + seq![','] + list.last()
    }
}

/// One key with its successors as text: a line feed, the key, an arrow,
/// the successors.
pub open spec fn entry_text(key: Seq<char>, list: Seq<Seq<char>>) -> Seq<char> {
    seq!['\n'] + key + seq![' ', '-', '>'] + successors_text(list)
}

/// The entries of the keys `keys` of `table` as text, one after the other.
pub open spec fn table_text(table: Map<Seq<char>, Seq<Seq<char>>>, keys: Seq<Seq<char>>) -> Seq<
    char,
>
    decreases keys.len(),
{
    if keys.len() == 0 {
        Seq::empty()
    } else {
        table_text(table, keys.drop_last()) + entry_text(keys.last(), table[keys.last()])
    }
}

/// The table as text: for every key, in the order of the keys, a line feed,
/// the key, an arrow, and the key's successors with a comma before each.
pub fn state_table_text(states: &StateTable) -> (text: String)
    ensures
        text@ == table_text(states@, states.keys()),
{
    let mut text = String::new();
    let count = states.len();
    let ghost keys = states.keys();
    let mut k: usize = 0;
    while k < count
        invariant
            k <= count == keys.len(),
            keys == states.keys(),
            text@ == table_text(states@, keys.take(k as int)),
        decreases count - k,
    {
        let ghost done = text@;
        let ghost key = keys[k as int];
        let ghost list = states@[key];
        text.push('\n');
        states.append_key(k, &mut text);
        text.push(' ');
        text.push('-');
        text.push('>');
        let ghost head = seq!['\n'] + key + seq![' ', '-', '>'];
        let successors = states.successor_count(k);
        let mut j: usize = 0;
        while j < successors
            invariant
                k < count == keys.len(),
                keys == states.keys(),
                key == keys[k as int],
                list == states@[key],
                j <= successors == list.len(),
                text@ == done + head + successors_text(list.take(j as int)),
            decreases successors - j,
        {
            text.push(',');
            let next = states.successor(k, j);
            states.append_key(next, &mut text);
            proof {
                let more = list.take(j + 1);
                assert(more.drop_last() =~= list.take(j as int));
            }
            j += 1;
        }
        proof {
            assert(list.take(successors as int) =~= list);
            let more = keys.take(k + 1);
            assert(more.drop_last() =~= keys.take(k as int));
        }
        k += 1;
    }
    assert(keys.take(count as int) =~= keys);
    text
}

} // verus!
