//! A keyed store of balances: one amount per account and asset index.

use crate::account::AccountId;
use vstd::prelude::*;

verus! {

/// What one account holds of the asset at one index.
#[derive(Clone, Copy, Debug, PartialEq, Eq)]
pub struct Entry {
    pub who: AccountId,
    pub index: u32,
    pub amount: u128,
}

/// The balances of all accounts. A key that was never written is absent,
/// which is not the same as holding zero.
#[derive(Clone, Debug, PartialEq, Eq)]
pub struct Ledger {
    entries: Vec<Entry>,
}

/// Whether `e` is the entry of the key `(who, index)`.
pub open spec fn keyed(e: Entry, key: (AccountId, u32)) -> bool {
    e.who == key.0 && e.index == key.1
}

/// Whether some entry of `entries` has the key `key`.
pub open spec fn has_key(entries: Seq<Entry>, key: (AccountId, u32)) -> bool {
    exists|i: int| 0 <= i < entries.len() && keyed(#[trigger] entries[i], key)
}

/// The place of an entry with the key `key`.
pub open spec fn place_of(entries: Seq<Entry>, key: (AccountId, u32)) -> int {
    choose|i: int| 0 <= i < entries.len() && keyed(#[trigger] entries[i], key)
}

/// No key has two entries.
pub open spec fn distinct_keys(entries: Seq<Entry>) -> bool {
    forall|i: int, j: int|
        0 <= i < j < entries.len() ==> !keyed(#[trigger] entries[i], (entries[j].who, (#[trigger] entries[j]).index))
}

/// The map that a sequence of entries stands for.
pub open spec fn as_map(entries: Seq<Entry>) -> Map<(AccountId, u32), u128> {
    Map::new(
        |key: (AccountId, u32)| has_key(entries, key),
        |key: (AccountId, u32)| entries[place_of(entries, key)].amount,
    )
}

/// With distinct keys, the entry at place `i` is the one that the map shows
/// for its key.
proof fn lemma_place(entries: Seq<Entry>, i: int)
    requires
        distinct_keys(entries),
        0 <= i < entries.len(),
    ensures
        has_key(entries, (entries[i].who, entries[i].index)),
        place_of(entries, (entries[i].who, entries[i].index)) == i,
{
    let key = (entries[i].who, entries[i].index);
    assert(keyed(entries[i], key));
    let p = place_of(entries, key);
    if p < i {
        assert(!keyed(entries[p], (entries[i].who, entries[i].index)));
    }
    if i < p {
        assert(!keyed(entries[i], (entries[p].who, entries[p].index)));
    }
}

/// A new amount in the entry at place `i` changes the amount under that
/// entry's key, and nothing else.
proof fn lemma_overwrite(before: Seq<Entry>, i: int, amount: u128)
    requires
        distinct_keys(before),
        0 <= i < before.len(),
    ensures
        distinct_keys(before.update(i, Entry { amount, ..before[i] })),
        as_map(before.update(i, Entry { amount, ..before[i] })) == as_map(before).insert(
            (before[i].who, before[i].index),
            amount,
        ),
{
    let after = before.update(i, Entry { amount, ..before[i] });
    assert forall|a: int, b: int| 0 <= a < b < after.len() implies !keyed(
        #[trigger] after[a],
        (after[b].who, (#[trigger] after[b]).index),
    ) by {
        assert(!keyed(before[a], (before[b].who, before[b].index)));
    }
    assert forall|key: (AccountId, u32)| has_key(after, key) == has_key(before, key) by {
        if has_key(before, key) {
            assert(keyed(after[place_of(before, key)], key));
        }
        if has_key(after, key) {
            assert(keyed(before[place_of(after, key)], key));
        }
    }
    assert forall|key: (AccountId, u32)| has_key(after, key) implies as_map(after)[key] == (if key
        == (before[i].who, before[i].index) {
        amount
    } else {
        as_map(before)[key]
    }) by {
        let p = place_of(after, key);
        lemma_place(after, p);
        lemma_place(before, p);
    }
    assert(as_map(after) =~= as_map(before).insert((before[i].who, before[i].index), amount));
}

/// An entry under a key that was not written adds that key, and changes
/// nothing else.
proof fn lemma_append(before: Seq<Entry>, entry: Entry)
    requires
        distinct_keys(before),
        !has_key(before, (entry.who, entry.index)),
    ensures
        distinct_keys(before.push(entry)),
        as_map(before.push(entry)) == as_map(before).insert(
            (entry.who, entry.index),
            entry.amount,
        ),
{
    let after = before.push(entry);
    let last = before.len() as int;
    assert forall|a: int, b: int| 0 <= a < b < after.len() implies !keyed(
        #[trigger] after[a],
        (after[b].who, (#[trigger] after[b]).index),
    ) by {
        if b < last {
            assert(!keyed(before[a], (before[b].who, before[b].index)));
        } else {
            assert(!keyed(before[a], (entry.who, entry.index)));
        }
    }
    assert forall|key: (AccountId, u32)| has_key(after, key) == (has_key(before, key) || key == (
        entry.who,
        entry.index,
    )) by {
        if has_key(before, key) {
            assert(keyed(after[place_of(before, key)], key));
        }
        if key == (entry.who, entry.index) {
            assert(keyed(after[last], key));
        }
        if has_key(after, key) && place_of(after, key) < last {
            assert(keyed(before[place_of(after, key)], key));
        }
    }
    assert forall|key: (AccountId, u32)| has_key(after, key) implies as_map(after)[key] == (if key
        == (entry.who, entry.index) {
        entry.amount
    } else {
        as_map(before)[key]
    }) by {
        let p = place_of(after, key);
        lemma_place(after, p);
        if p < last {
            lemma_place(before, p);
        }
    }
    assert(as_map(after) =~= as_map(before).insert((entry.who, entry.index), entry.amount));
}

impl Ledger {
    /// Every key is written at most once in the store.
    pub closed spec fn wf(&self) -> bool {
        distinct_keys(self.entries@)
    }

    /// The amounts by key.
    pub closed spec fn view(&self) -> Map<(AccountId, u32), u128> {
        as_map(self.entries@)
    }

    /// A store with no key written.
    pub fn new() -> (ledger: Ledger)
        ensures
            ledger.wf(),
            ledger@ == Map::<(AccountId, u32), u128>::empty(),
    {
        let ledger = Ledger { entries: Vec::new() };
        proof {
            assert(ledger@ =~= Map::<(AccountId, u32), u128>::empty());
        }
        ledger
    }

    /// Where the entry of `(who, index)` stands, if the key was written.
    fn position(&self, who: AccountId, index: u32) -> (at: Option<usize>)
        ensures
            match at {
                Some(i) => i < self.entries@.len() && keyed(self.entries@[i as int], (who, index)),
                None => !has_key(self.entries@, (who, index)),
            },
    {
        let mut i: usize = 0;
        while i < self.entries.len()
            invariant
                i <= self.entries@.len(),
                forall|k: int| 0 <= k < i ==> !keyed(#[trigger] self.entries@[k], (who, index)),
            decreases self.entries@.len() - i,
        {
            if self.entries[i].who == who && self.entries[i].index == index {
                return Some(i);
            }
            i += 1;
        }
        None
    }

    /// The amount written under `(who, index)`, if any.
    pub fn get(&self, who: AccountId, index: u32) -> (amount: Option<u128>)
        requires
            self.wf(),
        ensures
            amount == if self@.dom().contains((who, index)) {
                Some(self@[(who, index)])
            } else {
                None
            },
    {
        match self.position(who, index) {
            Some(i) => {
                proof {
                    lemma_place(self.entries@, i as int);
                }
                Some(self.entries[i].amount)
            },
            None => None,
        }
    }

    /// Writes `amount` under `(who, index)`, in place of what was there.
    pub fn insert(&mut self, who: AccountId, index: u32, amount: u128)
        requires
            old(self).wf(),
        ensures
            final(self).wf(),
            final(self)@ == old(self)@.insert((who, index), amount),
    {
        let entry = Entry { who, index, amount };
        match self.position(who, index) {
            Some(i) => {
                proof {
                    lemma_overwrite(self.entries@, i as int, amount);
                }
                self.entries[i] = entry;
            },
            None => {
                proof {
                    lemma_append(self.entries@, entry);
                }
                self.entries.push(entry);
            },
        }
    }

    /// A second store with the same entries, for work that may yet fail.
    pub fn snapshot(&self) -> (copy: Ledger)
        ensures
            copy@ == self@,
            copy.wf() == self.wf(),
    {
        let mut entries: Vec<Entry> = Vec::new();
        let mut i: usize = 0;
        while i < self.entries.len()
            invariant
                i <= self.entries@.len(),
                entries@ == self.entries@.subrange(0, i as int),
            decreases self.entries@.len() - i,
        {
            entries.push(self.entries[i]);
            proof {
                assert(entries@ =~= self.entries@.subrange(0, i + 1));
            }
            i += 1;
        }
        proof {
            assert(entries@ =~= self.entries@);
        }
        Ledger { entries }
    }
}

} // verus!
