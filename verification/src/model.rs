//! The mathematical model of a transition table: which groupings a sample
//! holds, which of them become keys, and which successors each key records.

use vstd::multiset::{lemma_insert_increases_count_by_1, lemma_insert_other_elements_unchanged};
use vstd::prelude::*;
use vstd::seq_lib::{to_multiset_build, to_multiset_len};

verus! {

/// An order is usable for a sample if it is at least one and smaller than
/// the sample's length.
pub open spec fn valid_order(sample: Seq<char>, order: nat) -> bool {
    1 <= order < sample.len()
}

/// The grouping that starts at `offset`: the next `order` units, or what is
/// left of the sample where fewer remain.
pub open spec fn window(sample: Seq<char>, order: nat, offset: int) -> Seq<char> {
    if offset + order <= sample.len() {
        sample.subrange(offset, offset + order)
    } else {
        sample.subrange(offset, sample.len() as int)
    }
}

/// The source grouping of the transition recorded at `offset`: the `order`
/// units that end just before it.
pub open spec fn source(sample: Seq<char>, order: nat, offset: int) -> Seq<char> {
    sample.subrange(offset - order, offset)
}

/// A transition is recorded at every offset from `order` up to the end of
/// the sample.
pub open spec fn is_transition(sample: Seq<char>, order: nat, offset: int) -> bool {
    order <= offset < sample.len()
}

/// `keys` with `key` added at the end unless it is already there.
pub open spec fn with_key(keys: Seq<Seq<char>>, key: Seq<char>) -> Seq<Seq<char>> {
    if keys.contains(key) {
        keys
    } else {
        keys.push(key)
    }
}

/// The keys after the transitions at offsets below `upto`, each grouping at
/// the place of its first appearance; at every transition the source comes
/// before the successor.
pub open spec fn keys_upto(sample: Seq<char>, order: nat, upto: int) -> Seq<Seq<char>>
    decreases upto,
{
    if upto <= order {
        Seq::empty()
    } else {
        with_key(
            with_key(keys_upto(sample, order, upto - 1), source(sample, order, upto - 1)),
            window(sample, order, upto - 1),
        )
    }
}

/// The successors that `key` has recorded after the transitions at offsets
/// below `upto`, in the order of the sample.
pub open spec fn successors_upto(sample: Seq<char>, order: nat, key: Seq<char>, upto: int) -> Seq<
    Seq<char>,
>
    decreases upto,
{
    if upto <= order {
        Seq::empty()
    } else if source(sample, order, upto - 1) == key {
        successors_upto(sample, order, key, upto - 1).push(window(sample, order, upto - 1))
    } else {
        successors_upto(sample, order, key, upto - 1)
    }
}

/// The keys of the table of `sample`, in order of first appearance.
pub open spec fn recorded_keys(sample: Seq<char>, order: nat) -> Seq<Seq<char>> {
    keys_upto(sample, order, sample.len() as int)
}

/// The successors of `key` in the table of `sample`, in the order in which
/// the sample holds them.
pub open spec fn successors_of(sample: Seq<char>, order: nat, key: Seq<char>) -> Seq<Seq<char>> {
    successors_upto(sample, order, key, sample.len() as int)
}

/// The transition table of `sample`: every key with its successors.
pub open spec fn transitions(sample: Seq<char>, order: nat) -> Map<Seq<char>, Seq<Seq<char>>> {
    Map::new(
        |key: Seq<char>| recorded_keys(sample, order).contains(key),
        |key: Seq<char>| successors_of(sample, order, key),
    )
}

/// `grouping` is the source or the successor of the transition at `offset`.
pub open spec fn recorded_at(sample: Seq<char>, order: nat, grouping: Seq<char>, offset: int) -> bool {
    is_transition(sample, order, offset) && (grouping == source(sample, order, offset) || grouping
        == window(sample, order, offset))
}

/// `key` is the source and `successor` the successor of the transition at
/// `offset`.
pub open spec fn follows_at(
    sample: Seq<char>,
    order: nat,
    key: Seq<char>,
    successor: Seq<char>,
    offset: int,
) -> bool {
    is_transition(sample, order, offset) && source(sample, order, offset) == key && window(
        sample,
        order,
        offset,
    ) == successor
}

/// The offsets at which `successor` follows `key`.
pub open spec fn follow_offsets(
    sample: Seq<char>,
    order: nat,
    key: Seq<char>,
    successor: Seq<char>,
) -> Set<int> {
    Set::new(|offset: int| follows_at(sample, order, key, successor, offset))
}

/// With `key` added, the keys hold what they held, and `key`.
proof fn lemma_with_key_contains(keys: Seq<Seq<char>>, key: Seq<char>, grouping: Seq<char>)
    ensures
        with_key(keys, key).contains(grouping) <==> keys.contains(grouping) || grouping == key,
{
    if !keys.contains(key) {
        let added = keys.push(key);
        assert(added[keys.len() as int] == key);
        if keys.contains(grouping) {
            let i = choose|i: int| 0 <= i < keys.len() && keys[i] == grouping;
            assert(added[i] == grouping);
        }
    }
}

/// Adding a key never makes a grouping occur twice.
proof fn lemma_with_key_distinct(keys: Seq<Seq<char>>, key: Seq<char>)
    requires
        keys.no_duplicates(),
    ensures
        with_key(keys, key).no_duplicates(),
{
}

/// The keys never hold a grouping twice.
pub(crate) proof fn lemma_keys_upto_distinct(sample: Seq<char>, order: nat, upto: int)
    ensures
        keys_upto(sample, order, upto).no_duplicates(),
    decreases upto,
{
    if upto > order {
        lemma_keys_upto_distinct(sample, order, upto - 1);
        let first = with_key(keys_upto(sample, order, upto - 1), source(sample, order, upto - 1));
        lemma_with_key_distinct(keys_upto(sample, order, upto - 1), source(sample, order, upto - 1));
        lemma_with_key_distinct(first, window(sample, order, upto - 1));
    }
}

/// The keys only grow: one that is there stays at its place.
pub(crate) proof fn lemma_keys_upto_prefix(sample: Seq<char>, order: nat, earlier: int, upto: int)
    requires
        earlier <= upto,
    ensures
        keys_upto(sample, order, earlier).is_prefix_of(keys_upto(sample, order, upto)),
    decreases upto - earlier,
{
    if earlier < upto {
        lemma_keys_upto_prefix(sample, order, earlier, upto - 1);
    }
}

/// A grouping is among the keys after the transitions below `upto` exactly
/// if one of those transitions has it as source or successor.
pub(crate) proof fn lemma_keys_upto_contains(sample: Seq<char>, order: nat, upto: int, grouping: Seq<char>)
    requires
        upto <= sample.len(),
    ensures
        keys_upto(sample, order, upto).contains(grouping) <==> exists|offset: int|
            offset < upto && #[trigger] recorded_at(sample, order, grouping, offset),
    decreases upto,
{
    if upto > order {
        let before = keys_upto(sample, order, upto - 1);
        let first = with_key(before, source(sample, order, upto - 1));
        lemma_keys_upto_contains(sample, order, upto - 1, grouping);
        lemma_with_key_contains(before, source(sample, order, upto - 1), grouping);
        lemma_with_key_contains(first, window(sample, order, upto - 1), grouping);
        if keys_upto(sample, order, upto).contains(grouping) && !before.contains(grouping) {
            assert(recorded_at(sample, order, grouping, upto - 1));
        }
    }
}

/// The offsets below `upto` at which `successor` follows `key`.
spec fn follow_offsets_below(
    sample: Seq<char>,
    order: nat,
    key: Seq<char>,
    successor: Seq<char>,
    upto: int,
) -> Set<int> {
    Set::new(|offset: int| offset < upto && follows_at(sample, order, key, successor, offset))
}

/// Every successor that `key` has recorded is the successor of a transition
/// whose source is `key`.
proof fn lemma_successors_upto_follow(
    sample: Seq<char>,
    order: nat,
    key: Seq<char>,
    upto: int,
    at: int,
)
    requires
        upto <= sample.len(),
        0 <= at < successors_upto(sample, order, key, upto).len(),
    ensures
        exists|offset: int|
            offset < upto && #[trigger] follows_at(
                sample,
                order,
                key,
                successors_upto(sample, order, key, upto)[at],
                offset,
            ),
    decreases upto,
{
    let earlier = successors_upto(sample, order, key, upto - 1);
    let list = successors_upto(sample, order, key, upto);
    if upto > order {
        if at < earlier.len() {
            lemma_successors_upto_follow(sample, order, key, upto - 1, at);
            let offset = choose|offset: int|
                offset < upto - 1 && #[trigger] follows_at(sample, order, key, earlier[at], offset);
            assert(offset < upto && follows_at(sample, order, key, list[at], offset));
        } else {
            assert(follows_at(sample, order, key, list[at], upto - 1));
        }
    }
}

/// A grouping has recorded a successor exactly if it is the source of a
/// transition.
proof fn lemma_successors_upto_empty(sample: Seq<char>, order: nat, key: Seq<char>, upto: int)
    requires
        upto <= sample.len(),
    ensures
        successors_upto(sample, order, key, upto).len() > 0 <==> exists|offset: int|
            offset < upto && is_transition(sample, order, offset) && #[trigger] source(
                sample,
                order,
                offset,
            ) == key,
    decreases upto,
{
    if upto > order {
        lemma_successors_upto_empty(sample, order, key, upto - 1);
    }
}

/// A grouping that is no key has recorded no successor.
pub(crate) proof fn lemma_successors_upto_of_stranger(
    sample: Seq<char>,
    order: nat,
    key: Seq<char>,
    upto: int,
)
    requires
        upto <= sample.len(),
        !keys_upto(sample, order, upto).contains(key),
    ensures
        successors_upto(sample, order, key, upto).len() == 0,
{
    lemma_successors_upto_empty(sample, order, key, upto);
    lemma_keys_upto_contains(sample, order, upto, key);
    if successors_upto(sample, order, key, upto).len() > 0 {
        let offset = choose|offset: int|
            offset < upto && is_transition(sample, order, offset) && #[trigger] source(
                sample,
                order,
                offset,
            ) == key;
        assert(recorded_at(sample, order, key, offset));
    }
}

/// `key` has recorded `successor` as often as `successor` follows `key`
/// at the offsets below `upto`.
proof fn lemma_successors_upto_count(
    sample: Seq<char>,
    order: nat,
    key: Seq<char>,
    successor: Seq<char>,
    upto: int,
)
    requires
        upto <= sample.len(),
    ensures
        follow_offsets_below(sample, order, key, successor, upto).finite(),
        successors_upto(sample, order, key, upto).to_multiset().count(successor)
            == follow_offsets_below(sample, order, key, successor, upto).len(),
    decreases upto,
{
    let here = follow_offsets_below(sample, order, key, successor, upto);
    if upto <= order {
        assert(here =~= Set::<int>::empty());
        to_multiset_len(successors_upto(sample, order, key, upto));
        vstd::multiset::axiom_count_le_len(
            successors_upto(sample, order, key, upto).to_multiset(),
            successor,
        );
    } else {
        lemma_successors_upto_count(sample, order, key, successor, upto - 1);
        let before = follow_offsets_below(sample, order, key, successor, upto - 1);
        let earlier = successors_upto(sample, order, key, upto - 1);
        let next = window(sample, order, upto - 1);
        if source(sample, order, upto - 1) == key {
            to_multiset_build(earlier, next);
            if next == successor {
                assert(here =~= before.insert(upto - 1));
                lemma_insert_increases_count_by_1(earlier.to_multiset(), successor);
            } else {
                assert(here =~= before);
                lemma_insert_other_elements_unchanged(earlier.to_multiset(), next, successor);
            }
        } else {
            assert(here =~= before);
        }
    }
}

/// The length of a grouping: `order`, or what is left of the sample.
pub proof fn lemma_window_len(sample: Seq<char>, order: nat, offset: int)
    requires
        0 <= offset <= sample.len(),
    ensures
        window(sample, order, offset).len() == (if offset + order <= sample.len() {
            order as int
        } else {
            sample.len() - offset
        }),
{
}

/// No grouping is a key twice.
pub proof fn lemma_keys_are_distinct(sample: Seq<char>, order: nat)
    ensures
        recorded_keys(sample, order).no_duplicates(),
{
    lemma_keys_upto_distinct(sample, order, sample.len() as int);
}

/// The keys are the groupings that some transition has as its source or as
/// its successor: every source and every successor is a key, and nothing
/// else is.
pub proof fn lemma_keys_are_the_recorded_groupings(
    sample: Seq<char>,
    order: nat,
    grouping: Seq<char>,
)
    ensures
        recorded_keys(sample, order).contains(grouping) <==> exists|offset: int| #[trigger]
            recorded_at(sample, order, grouping, offset),
        transitions(sample, order).dom().contains(grouping) <==> recorded_keys(
            sample,
            order,
        ).contains(grouping),
{
    lemma_keys_upto_contains(sample, order, sample.len() as int, grouping);
}

/// No key is empty, and none is longer than `order`.
pub proof fn lemma_key_lengths(sample: Seq<char>, order: nat, position: int)
    requires
        valid_order(sample, order),
        0 <= position < recorded_keys(sample, order).len(),
    ensures
        1 <= recorded_keys(sample, order)[position].len() <= order,
{
    let key = recorded_keys(sample, order)[position];
    lemma_keys_are_the_recorded_groupings(sample, order, key);
    let offset = choose|offset: int| #[trigger] recorded_at(sample, order, key, offset);
    lemma_window_len(sample, order, offset);
}

/// The successor list of a grouping is not empty exactly if the grouping is
/// the source of a transition. A key that only ever appears as a successor
/// has an empty list.
pub proof fn lemma_sources_have_successors(sample: Seq<char>, order: nat, key: Seq<char>)
    ensures
        successors_of(sample, order, key).len() > 0 <==> exists|offset: int|
            is_transition(sample, order, offset) && #[trigger] source(sample, order, offset) == key,
{
    lemma_successors_upto_empty(sample, order, key, sample.len() as int);
}

/// Every successor in a list is the grouping at a transition whose source
/// is the list's key, and is itself a key.
pub proof fn lemma_successors_are_keys(sample: Seq<char>, order: nat, key: Seq<char>, at: int)
    requires
        0 <= at < successors_of(sample, order, key).len(),
    ensures
        exists|offset: int| #[trigger]
            follows_at(sample, order, key, successors_of(sample, order, key)[at], offset),
        recorded_keys(sample, order).contains(successors_of(sample, order, key)[at]),
{
    let successor = successors_of(sample, order, key)[at];
    lemma_successors_upto_follow(sample, order, key, sample.len() as int, at);
    let offset = choose|offset: int|
        offset < sample.len() && #[trigger] follows_at(sample, order, key, successor, offset);
    assert(recorded_at(sample, order, successor, offset));
    lemma_keys_are_the_recorded_groupings(sample, order, successor);
}

/// Every successor is exactly `order` units long, unless it is one of the
/// trailing groupings of the sample: such a successor is shorter, and it is
/// the end of the sample.
pub proof fn lemma_successor_lengths(sample: Seq<char>, order: nat, key: Seq<char>, at: int)
    requires
        valid_order(sample, order),
        0 <= at < successors_of(sample, order, key).len(),
    ensures
        ({
            let successor = successors_of(sample, order, key)[at];
            ||| successor.len() == order
            ||| (1 <= successor.len() < order && successor == sample.subrange(
                sample.len() - successor.len(),
                sample.len() as int,
            ))
        }),
{
    let successor = successors_of(sample, order, key)[at];
    lemma_successors_are_keys(sample, order, key, at);
    let offset = choose|offset: int| #[trigger]
        follows_at(sample, order, key, successor, offset);
    lemma_window_len(sample, order, offset);
}

/// A list holds a successor as often as that successor follows the list's
/// key in the sample: the successors of a key, taken as a multiset, are the
/// groupings that follow its occurrences.
pub proof fn lemma_successors_match_the_sample(
    sample: Seq<char>,
    order: nat,
    key: Seq<char>,
    successor: Seq<char>,
)
    ensures
        follow_offsets(sample, order, key, successor).finite(),
        successors_of(sample, order, key).to_multiset().count(successor) == follow_offsets(
            sample,
            order,
            key,
            successor,
        ).len(),
{
    lemma_successors_upto_count(sample, order, key, successor, sample.len() as int);
    assert(follow_offsets(sample, order, key, successor) =~= follow_offsets_below(
        sample,
        order,
        key,
        successor,
        sample.len() as int,
    ));
}

/// In a list the shorter successors come last: a successor is never longer
/// than one before it, and a successor that is shorter than `order` is
/// shorter than every one before it.
pub proof fn lemma_short_successors_come_last(
    sample: Seq<char>,
    order: nat,
    key: Seq<char>,
    earlier: int,
    later: int,
)
    requires
        valid_order(sample, order),
        0 <= earlier < later < successors_of(sample, order, key).len(),
    ensures
        ({
            let list = successors_of(sample, order, key);
            &&& list[earlier].len() >= list[later].len()
            &&& list[later].len() < order ==> list[earlier].len() > list[later].len()
        }),
{
    lemma_lengths_upto(sample, order, key, sample.len() as int, earlier, later);
}

/// The same of the successors recorded below `upto`.
proof fn lemma_lengths_upto(
    sample: Seq<char>,
    order: nat,
    key: Seq<char>,
    upto: int,
    earlier: int,
    later: int,
)
    requires
        valid_order(sample, order),
        upto <= sample.len(),
        0 <= earlier < later < successors_upto(sample, order, key, upto).len(),
    ensures
        ({
            let list = successors_upto(sample, order, key, upto);
            &&& list[earlier].len() >= list[later].len()
            &&& list[later].len() < order ==> list[earlier].len() > list[later].len()
        }),
    decreases upto,
{
    let before = successors_upto(sample, order, key, upto - 1);
    if upto > order {
        if later < before.len() {
            lemma_lengths_upto(sample, order, key, upto - 1, earlier, later);
        } else {
            // The later one is the grouping at `upto - 1`; the earlier one
            // starts further to the left.
            lemma_successors_upto_follow(sample, order, key, upto - 1, earlier);
            let offset = choose|offset: int|
                offset < upto - 1 && #[trigger] follows_at(
                    sample,
                    order,
                    key,
                    before[earlier],
                    offset,
                );
            lemma_window_len(sample, order, offset);
            lemma_window_len(sample, order, upto - 1);
        }
    }
}

} // verus!
