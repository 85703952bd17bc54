//! The transition table: built once from a sample, never changed afterwards.

use crate::model::{
    keys_upto, lemma_keys_upto_contains, lemma_keys_upto_distinct, lemma_keys_upto_prefix,
    lemma_successors_upto_of_stranger, recorded_at, recorded_keys, source, successors_upto,
    transitions, valid_order, window, with_key,
};
use crate::order::{check_order, checked_order, ModelError};
use crate::text::{to_chars, to_text};
use vstd::prelude::*;

verus! {

/// The transition table of one sample.
///
/// The table keeps the sample. A key is held as the offset at which the
/// grouping first appears, a successor as the position of its key. A
/// grouping is found among the keys by comparing it with one key after the
/// other.
#[derive(Debug)]
pub struct StateTable {
    sample: Vec<char>,
    order: usize,
    starts: Vec<usize>,
    successors: Vec<Vec<usize>>,
}

/// The groupings that start at the offsets `starts`.
spec fn key_views(sample: Seq<char>, order: nat, starts: Seq<usize>) -> Seq<Seq<char>> {
    Seq::new(starts.len(), |k: int| window(sample, order, starts[k] as int))
}

/// The groupings at the positions `list` of `keys`.
spec fn successor_views(keys: Seq<Seq<char>>, list: Seq<usize>) -> Seq<Seq<char>> {
    Seq::new(list.len(), |j: int| keys[list[j] as int])
}

/// The successor lists as sequences.
spec fn lists_of(successors: Seq<Vec<usize>>) -> Seq<Seq<usize>> {
    Seq::new(successors.len(), |k: int| successors[k]@)
}

/// `starts` and `lists` hold the keys and successors that the transitions
/// at offsets below `upto` have recorded.
spec fn records_upto(
    sample: Seq<char>,
    order: nat,
    starts: Seq<usize>,
    lists: Seq<Seq<usize>>,
    upto: int,
) -> bool {
    &&& starts.len() == lists.len()
    &&& forall|k: int| 0 <= k < starts.len() ==> (#[trigger] starts[k]) < sample.len()
    &&& forall|k: int, j: int|
        0 <= k < lists.len() && 0 <= j < lists[k].len() ==> (#[trigger] lists[k][j])
            < starts.len()
    &&& key_views(sample, order, starts) == keys_upto(sample, order, upto)
    &&& forall|k: int|
        0 <= k < lists.len() ==> successor_views(
            key_views(sample, order, starts),
            #[trigger] lists[k],
        ) == successors_upto(sample, order, key_views(sample, order, starts)[k], upto)
}

/// The length of the grouping at `offset`.
fn window_len(sample: &Vec<char>, order: usize, offset: usize) -> (len: usize)
    requires
        offset <= sample.len(),
    ensures
        len == window(sample@, order as nat, offset as int).len(),
        offset + len <= sample.len(),
        len <= order,
{
    if sample.len() - offset >= order {
        order
    } else {
        sample.len() - offset
    }
}

/// Whether the groupings at `a` and `b` are the same.
fn same_window(sample: &Vec<char>, order: usize, a: usize, b: usize) -> (same: bool)
    requires
        a <= sample.len(),
        b <= sample.len(),
    ensures
        same == (window(sample@, order as nat, a as int) == window(sample@, order as nat, b as int)),
{
    let len = window_len(sample, order, a);
    if window_len(sample, order, b) != len {
        return false;
    }
    let ghost left = window(sample@, order as nat, a as int);
    let ghost right = window(sample@, order as nat, b as int);
    let mut t: usize = 0;
    while t < len
        invariant
            t <= len,
            a + len <= sample.len(),
            b + len <= sample.len(),
            left == window(sample@, order as nat, a as int),
            right == window(sample@, order as nat, b as int),
            left.len() == len,
            right.len() == len,
            forall|u: int| 0 <= u < t ==> left[u] == right[u],
        decreases len - t,
    {
        if sample[a + t] != sample[b + t] {
            assert(left[t as int] != right[t as int]);
            return false;
        }
        t += 1;
    }
    assert(left =~= right);
    true
}

/// The position of the key that equals the grouping at `offset`, if there
/// is one.
fn find_key(sample: &Vec<char>, order: usize, starts: &Vec<usize>, offset: usize) -> (found:
    Option<usize>)
    requires
        offset <= sample.len(),
        forall|k: int| 0 <= k < starts.len() ==> (#[trigger] starts[k]) < sample.len(),
    ensures
        match found {
            Some(k) => k < starts.len() && key_views(sample@, order as nat, starts@)[k as int]
                == window(sample@, order as nat, offset as int),
            None => !key_views(sample@, order as nat, starts@).contains(
                window(sample@, order as nat, offset as int),
            ),
        },
{
    let ghost keys = key_views(sample@, order as nat, starts@);
    let mut k: usize = 0;
    while k < starts.len()
        invariant
            k <= starts.len(),
            offset <= sample.len(),
            keys == key_views(sample@, order as nat, starts@),
            forall|m: int| 0 <= m < starts.len() ==> (#[trigger] starts[m]) < sample.len(),
            forall|m: int| 0 <= m < k ==> keys[m] != window(sample@, order as nat, offset as int),
        decreases starts.len() - k,
    {
        if same_window(sample, order, starts[k], offset) {
            return Some(k);
        }
        k += 1;
    }
    None
}

/// The position of the key that equals the grouping at `offset`; the key
/// is added at the end, with no successor, if it is not there yet.
fn key_index(
    sample: &Vec<char>,
    order: usize,
    starts: &mut Vec<usize>,
    successors: &mut Vec<Vec<usize>>,
    offset: usize,
) -> (k: usize)
    requires
        offset < sample.len(),
        old(starts).len() == old(successors).len(),
        forall|m: int| 0 <= m < old(starts).len() ==> (#[trigger] old(starts)[m]) < sample.len(),
    ensures
        final(starts).len() == final(successors).len(),
        forall|m: int| 0 <= m < final(starts).len() ==> (#[trigger] final(starts)[m]) < sample.len(),
        key_views(sample@, order as nat, final(starts)@) == with_key(
            key_views(sample@, order as nat, old(starts)@),
            window(sample@, order as nat, offset as int),
        ),
        k < final(starts).len(),
        key_views(sample@, order as nat, final(starts)@)[k as int] == window(
            sample@,
            order as nat,
            offset as int,
        ),
        old(starts).len() <= final(starts).len() <= old(starts).len() + 1,
        forall|m: int| 0 <= m < old(starts).len() ==> final(starts)[m] == old(starts)[m],
        forall|m: int| 0 <= m < old(successors).len() ==> final(successors)[m] == old(successors)[m],
        forall|m: int|
            old(successors).len() <= m < final(successors).len()
                ==> (#[trigger] final(successors)[m])@.len() == 0,
{
    match find_key(sample, order, starts, offset) {
        Some(k) => k,
        None => {
            starts.push(offset);
            successors.push(Vec::new());
            starts.len() - 1
        },
    }
}

/// One more transition: if `starts` and `lists` held what the transitions
/// below `offset` recorded, and then the source and the successor of the
/// transition at `offset` were given keys and the successor was appended to
/// the source's list, they hold what the transitions up to `offset` record.
proof fn lemma_record_transition(
    sample: Seq<char>,
    order: nat,
    offset: int,
    starts: Seq<usize>,
    lists: Seq<Seq<usize>>,
    new_starts: Seq<usize>,
    new_lists: Seq<Seq<usize>>,
    s: usize,
    t: usize,
)
    requires
        order <= offset < sample.len(),
        records_upto(sample, order, starts, lists, offset),
        key_views(sample, order, new_starts) == keys_upto(sample, order, offset + 1),
        new_starts.len() == new_lists.len(),
        starts.len() <= new_starts.len(),
        forall|k: int| 0 <= k < new_starts.len() ==> (#[trigger] new_starts[k]) < sample.len(),
        s < new_starts.len(),
        t < new_starts.len(),
        key_views(sample, order, new_starts)[s as int] == source(sample, order, offset),
        key_views(sample, order, new_starts)[t as int] == window(sample, order, offset),
        forall|k: int|
            0 <= k < new_lists.len() && k != s ==> #[trigger] new_lists[k] == (if k < lists.len() {
                lists[k]
            } else {
                Seq::<usize>::empty()
            }),
        new_lists[s as int] == (if s < lists.len() {
            lists[s as int]
        } else {
            Seq::<usize>::empty()
        }).push(t),
    ensures
        records_upto(sample, order, new_starts, new_lists, offset + 1),
{
    let keys = key_views(sample, order, starts);
    let new_keys = key_views(sample, order, new_starts);
    lemma_keys_upto_prefix(sample, order, offset, offset + 1);
    lemma_keys_upto_distinct(sample, order, offset + 1);
    assert forall|k: int| 0 <= k < new_lists.len() implies successor_views(
        new_keys,
        #[trigger] new_lists[k],
    ) == successors_upto(sample, order, new_keys[k], offset + 1) by {
        let earlier = if k < lists.len() {
            lists[k]
        } else {
            Seq::<usize>::empty()
        };
        // Before this transition an old key had recorded its list, and a
        // new key nothing.
        assert(successor_views(new_keys, earlier) == successors_upto(
            sample,
            order,
            new_keys[k],
            offset,
        )) by {
            if k < lists.len() {
                assert(successor_views(new_keys, earlier) =~= successor_views(keys, lists[k]));
            } else {
                assert(!keys.contains(new_keys[k])) by {
                    if keys.contains(new_keys[k]) {
                        let m = choose|m: int| 0 <= m < keys.len() && keys[m] == new_keys[k];
                        assert(new_keys[m] == new_keys[k]);
                    }
                }
                lemma_successors_upto_of_stranger(sample, order, new_keys[k], offset);
            }
        }
    }
}

impl StateTable {
    /// What the table holds is what its sample records.
    #[verifier::type_invariant]
    spec fn well_formed(&self) -> bool {
        &&& valid_order(self.sample@, self.order as nat)
        &&& records_upto(
            self.sample@,
            self.order as nat,
            self.starts@,
            lists_of(self.successors@),
            self.sample@.len() as int,
        )
    }

    /// The sample that the table was built from.
    pub closed spec fn sample(&self) -> Seq<char> {
        self.sample@
    }

    /// The order that the table was built with.
    pub closed spec fn spec_order(&self) -> nat {
        self.order as nat
    }

    /// The keys, each at the place of its first appearance in the sample.
    pub open spec fn keys(&self) -> Seq<Seq<char>> {
        recorded_keys(self.sample(), self.spec_order())
    }
}

impl View for StateTable {
    type V = Map<Seq<char>, Seq<Seq<char>>>;

    /// Every key with its successors, in the order of the sample.
    open spec fn view(&self) -> Map<Seq<char>, Seq<Seq<char>>> {
        transitions(self.sample(), self.spec_order())
    }
}

/// Builds the transition table of `sample_text` for groupings of `order`
/// characters.
///
/// A window of `order` characters slides over the sample. At every offset
/// from `order` on, the grouping that ends there records the grouping that
/// starts there as a successor; the last groupings of the sample are
/// shorter than `order`. An empty sample and an order that is zero or not
/// smaller than the sample's length are refused.
pub fn generate_state_table(sample_text: &str, order: usize) -> (result: Result<
    StateTable,
    ModelError,
>)
    ensures
        result is Ok <==> valid_order(sample_text@, order as nat),
        match result {
            Ok(table) => {
                &&& table.sample() == sample_text@
                &&& table.spec_order() == order
                &&& table.keys() == recorded_keys(sample_text@, order as nat)
                &&& table@ == transitions(sample_text@, order as nat)
            },
            Err(error) => checked_order(sample_text@.len(), order as nat) == Err::<(), ModelError>(
                error,
            ),
        },
{
    let sample = to_chars(sample_text);
    match check_order(sample.len(), order) {
        Err(error) => { return Err(error); },
        Ok(()) => {},
    }
    let mut starts: Vec<usize> = Vec::new();
    let mut successors: Vec<Vec<usize>> = Vec::new();
    let mut offset: usize = order;
    assert(key_views(sample@, order as nat, starts@) =~= keys_upto(
        sample@,
        order as nat,
        offset as int,
    ));
    while offset < sample.len()
        invariant
            1 <= order <= offset <= sample.len(),
            records_upto(
                sample@,
                order as nat,
                starts@,
                lists_of(successors@),
                offset as int,
            ),
        decreases sample.len() - offset,
    {
        let ghost old_starts = starts@;
        let ghost old_lists = lists_of(successors@);
        let s = key_index(&sample, order, &mut starts, &mut successors, offset - order);
        let t = key_index(&sample, order, &mut starts, &mut successors, offset);
        let ghost grown = lists_of(successors@);
        successors[s].push(t);
        proof {
            let new_lists = lists_of(successors@);
            // The lists are as they were, but for new keys, which have an
            // empty one, and for the source, which has one successor more.
            assert forall|k: int| 0 <= k < new_lists.len() && k != s implies #[trigger] new_lists[k]
                == (if k < old_lists.len() {
                old_lists[k]
            } else {
                Seq::<usize>::empty()
            }) by {}
            if s >= old_lists.len() {
                assert(grown[s as int] =~= Seq::<usize>::empty());
            }
            lemma_record_transition(
                sample@,
                order as nat,
                offset as int,
                old_starts,
                old_lists,
                starts@,
                new_lists,
                s,
                t,
            );
        }
        offset += 1;
    }
    Ok(StateTable { sample, order, starts, successors })
}

/// The character sequences of `texts`.
pub open spec fn texts_of(texts: Seq<String>) -> Seq<Seq<char>> {
    Seq::new(texts.len(), |j: int| texts[j]@)
}

impl StateTable {
    /// The order that the table was built with.
    pub fn order(&self) -> (order: usize)
        ensures
            order == self.spec_order(),
            valid_order(self.sample(), order as nat),
    {
        proof {
            use_type_invariant(self);
        }
        self.order
    }

    /// The number of keys.
    pub fn len(&self) -> (len: usize)
        ensures
            len == self.keys().len(),
            len > 0,
    {
        proof {
            use_type_invariant(self);
            lemma_keys_upto_contains(
                self.sample@,
                self.order as nat,
                self.sample@.len() as int,
                source(self.sample@, self.order as nat, self.order as int),
            );
            assert(recorded_at(
                self.sample@,
                self.order as nat,
                source(self.sample@, self.order as nat, self.order as int),
                self.order as int,
            ));
        }
        self.starts.len()
    }

    /// The key at `position`, counted in order of first appearance.
    pub fn key(&self, position: usize) -> (key: Option<String>)
        ensures
            match key {
                Some(text) => position < self.keys().len() && text@ == self.keys()[position as int],
                None => position >= self.keys().len(),
            },
    {
        proof {
            use_type_invariant(self);
        }
        if position < self.starts.len() {
            Some(self.key_text(position))
        } else {
            None
        }
    }

    /// The successors of `key`, in the order of the sample, if `key` is a
    /// key of the table.
    pub fn successors(&self, key: &str) -> (list: Option<Vec<String>>)
        ensures
            match list {
                Some(texts) => self@.dom().contains(key@) && texts_of(texts@) == self@[key@],
                None => !self@.dom().contains(key@),
            },
    {
        proof {
            use_type_invariant(self);
        }
        let grouping = to_chars(key);
        match self.position_of(&grouping) {
            None => None,
            Some(k) => {
                let ghost keys = key_views(self.sample@, self.order as nat, self.starts@);
                let mut texts: Vec<String> = Vec::new();
                let mut j: usize = 0;
                while j < self.successors[k].len()
                    invariant
                        self.well_formed(),
                        k < self.starts.len(),
                        j <= self.successors[k as int].len(),
                        keys == key_views(self.sample@, self.order as nat, self.starts@),
                        texts.len() == j,
                        forall|m: int|
                            0 <= m < j ==> (#[trigger] texts[m])@
                                == keys[self.successors[k as int][m] as int],
                    decreases self.successors[k as int].len() - j,
                {
                    assert(lists_of(self.successors@)[k as int][j as int] < self.starts.len());
                    let text = self.key_text(self.successors[k][j]);
                    texts.push(text);
                    j += 1;
                }
                assert(texts_of(texts@) =~= successor_views(
                    keys,
                    lists_of(self.successors@)[k as int],
                ));
                Some(texts)
            },
        }
    }

    /// Appends the key at `position` to `text` and returns the key's length.
    pub(crate) fn append_key(&self, position: usize, text: &mut String) -> (len: usize)
        requires
            position < self.keys().len(),
        ensures
            final(text)@ == old(text)@ + self.keys()[position as int],
            len == self.keys()[position as int].len(),
            1 <= len <= self.spec_order(),
    {
        proof {
            use_type_invariant(self);
        }
        let start = self.starts[position];
        let len = window_len(&self.sample, self.order, start);
        let ghost key = window(self.sample@, self.order as nat, start as int);
        let mut t: usize = 0;
        while t < len
            invariant
                t <= len,
                start + len <= self.sample.len(),
                key == self.sample@.subrange(start as int, start + len),
                text@ == old(text)@ + key.take(t as int),
            decreases len - t,
        {
            text.push(self.sample[start + t]);
            t += 1;
        }
        len
    }

    /// The number of successors of the key at `position`.
    pub(crate) fn successor_count(&self, position: usize) -> (count: usize)
        requires
            position < self.keys().len(),
        ensures
            count == self@[self.keys()[position as int]].len(),
    {
        proof {
            use_type_invariant(self);
            assert(lists_of(self.successors@)[position as int] == self.successors[position as int]@);
        }
        self.successors[position].len()
    }

    /// The position of the successor `at` of the key at `position`.
    pub(crate) fn successor(&self, position: usize, at: usize) -> (next: usize)
        requires
            position < self.keys().len(),
            at < self@[self.keys()[position as int]].len(),
        ensures
            next < self.keys().len(),
            self.keys()[next as int] == self@[self.keys()[position as int]][at as int],
    {
        proof {
            use_type_invariant(self);
            let list = lists_of(self.successors@)[position as int];
            assert(successor_views(self.keys(), list)[at as int] == self.keys()[list[at as int] as int]);
        }
        self.successors[position][at]
    }

    /// The key at `position` as a string.
    fn key_text(&self, position: usize) -> (text: String)
        requires
            position < self.keys().len(),
        ensures
            text@ == self.keys()[position as int],
    {
        proof {
            use_type_invariant(self);
        }
        let start = self.starts[position];
        let len = window_len(&self.sample, self.order, start);
        to_text(&self.sample, start, start + len)
    }

    /// The position of the key that equals `grouping`, if there is one.
    fn position_of(&self, grouping: &Vec<char>) -> (found: Option<usize>)
        ensures
            match found {
                Some(k) => k < self.keys().len() && self.keys()[k as int] == grouping@,
                None => !self.keys().contains(grouping@),
            },
    {
        proof {
            use_type_invariant(self);
        }
        let ghost keys = key_views(self.sample@, self.order as nat, self.starts@);
        let mut k: usize = 0;
        while k < self.starts.len()
            invariant
                self.well_formed(),
                k <= self.starts.len(),
                keys == key_views(self.sample@, self.order as nat, self.starts@),
                forall|m: int| 0 <= m < k ==> keys[m] != grouping@,
            decreases self.starts.len() - k,
        {
            if self.holds_at(self.starts[k], grouping) {
                return Some(k);
            }
            k += 1;
        }
        None
    }

    /// Whether the grouping at `offset` equals `grouping`.
    fn holds_at(&self, offset: usize, grouping: &Vec<char>) -> (same: bool)
        requires
            offset <= self.sample().len(),
        ensures
            same == (window(self.sample(), self.spec_order(), offset as int) == grouping@),
    {
        let len = window_len(&self.sample, self.order, offset);
        if grouping.len() != len {
            return false;
        }
        let ghost here = window(self.sample@, self.order as nat, offset as int);
        let mut t: usize = 0;
        while t < len
            invariant
                t <= len,
                offset + len <= self.sample.len(),
                grouping.len() == len,
                here == window(self.sample@, self.order as nat, offset as int),
                here.len() == len,
                forall|u: int| 0 <= u < t ==> here[u] == grouping@[u],
            decreases len - t,
        {
            if self.sample[offset + t] != grouping[t] {
                return false;
            }
            t += 1;
        }
        assert(here =~= grouping@);
        true
    }
}

/// Two tables of one sample and one order hold the same keys in the same
/// order, and the same successors in the same order.
pub proof fn lemma_tables_of_one_sample_agree(first: StateTable, second: StateTable)
    requires
        first.sample() == second.sample(),
        first.spec_order() == second.spec_order(),
    ensures
        first.keys() == second.keys(),
        first@ == second@,
{
}

} // verus!
