//! Which assets are loaded, from which manifest: the engine re-sends a
//! manifest on every spawn, and one that has not changed since it was loaded
//! is not loaded again. Every load moves the generation on, so whatever is
//! built from the loaded frames knows when to rebuild.

use vstd::prelude::*;
use crate::state_machine::{find_named, first_named};

verus! {

/// The hash of the manifest each loaded asset was built from, and how many
/// loads there have been.
pub struct AssetCache {
    entries: Vec<(String, u64)>,
    generation: u64,
}

impl View for AssetCache {
    type V = Map<Seq<char>, u64>;

    /// Each loaded asset's name and manifest hash.
    closed spec fn view(&self) -> Map<Seq<char>, u64> {
        Map::new(
            |name: Seq<char>| first_named(self.entries@, name, self.entries@.len()) is Some,
            |name: Seq<char>|
                self.entries@[first_named(self.entries@, name, self.entries@.len())->0].1,
        )
    }
}

impl AssetCache {
    /// Nothing loaded yet.
    pub fn new() -> (cache: AssetCache)
        ensures
            cache@ == Map::<Seq<char>, u64>::empty(),
            cache.generation_count() == 0,
    {
        let cache = AssetCache { entries: Vec::new(), generation: 0 };
        assert(cache@ =~= Map::<Seq<char>, u64>::empty());
        cache
    }

    pub closed spec fn generation_count(&self) -> u64 {
        self.generation
    }

    /// How many loads there have been; moves whenever frames change.
    pub fn generation(&self) -> (g: u64)
        ensures
            g == self.generation_count(),
    {
        self.generation
    }

    /// Whether the manifest hashing to `hash` must be loaded for `name`: it
    /// must unless that asset is loaded from a manifest with the same hash.
    pub fn needs_reload(&self, name: &str, hash: u64) -> (r: bool)
        ensures
            r <==> !(self@.contains_key(name@) && self@[name@] == hash),
    {
        match find_named(&self.entries, name) {
            Some(i) => self.entries[i].1 != hash,
            None => true,
        }
    }

    /// Records that `name` was loaded from the manifest hashing to `hash`.
    pub fn loaded(&mut self, name: &str, hash: u64)
        requires
            old(self).generation_count() < u64::MAX,
        ensures
            final(self)@ == old(self)@.insert(name@, hash),
            final(self).generation_count() == old(self).generation_count() + 1,
    {
        let ghost before = self.entries@;
        match find_named(&self.entries, name) {
            Some(i) => {
                self.entries.set(i, (String::from_str(name), hash));
                proof {
                    lemma_first_named_replaced(before, self.entries@, name@, i as int);
                    lemma_first_named_range(before, name@, before.len());
                }
            },
            None => {
                self.entries.push((String::from_str(name), hash));
                proof {
                    lemma_first_named_pushed(before, self.entries@, name@);
                }
            },
        }
        assert forall|j: int| 0 <= j < before.len() && before[j].0@ != name@ implies self.entries@[j]
            == before[j] by {}
        self.generation = self.generation + 1;
        proof {
            let n = self.entries@.len();
            assert forall|k: Seq<char>| #[trigger] self@.contains_key(k) <==> old(self)@.insert(name@, hash).contains_key(k) by {
                if k != name@ {
                    assert(first_named(self.entries@, k, n) == first_named(before, k, before.len()));
                }
            }
            assert forall|k: Seq<char>| #[trigger] self@.contains_key(k) implies self@[k] == old(self)@.insert(name@, hash)[k] by {
                if k != name@ {
                    assert(first_named(self.entries@, k, n) == first_named(before, k, before.len()));
                    let j = first_named(before, k, before.len())->0;
                    lemma_first_named_range(before, k, before.len());
                    lemma_first_named_range(before, name@, before.len());
                    assert(self.entries@[j] == before[j]);
                }
            }
        }
        assert(self@ =~= old(self)@.insert(name@, hash));
    }
}

/// Replacing the first entry called `name` by another called `name` leaves
/// every name's first entry where it was.
proof fn lemma_first_named_replaced(
    before: Seq<(String, u64)>,
    after: Seq<(String, u64)>,
    name: Seq<char>,
    i: int,
)
    requires
        0 <= i < before.len(),
        first_named(before, name, before.len()) == Some(i),
        after.len() == before.len(),
        after[i].0@ == name,
        forall|j: int| 0 <= j < before.len() && j != i ==> after[j] == before[j],
    ensures
        forall|other: Seq<char>|
            #[trigger] first_named(after, other, after.len()) == first_named(before, other, before.len()),
{
    assert forall|other: Seq<char>|
        #[trigger] first_named(after, other, after.len()) == first_named(before, other, before.len()) by {
        lemma_same_prefix_names(before, after, name, i, other, before.len());
    }
}

proof fn lemma_same_prefix_names(
    before: Seq<(String, u64)>,
    after: Seq<(String, u64)>,
    name: Seq<char>,
    i: int,
    other: Seq<char>,
    n: nat,
)
    requires
        0 <= i < before.len(),
        n <= before.len(),
        first_named(before, name, before.len()) == Some(i),
        after.len() == before.len(),
        after[i].0@ == name,
        forall|j: int| 0 <= j < before.len() && j != i ==> after[j] == before[j],
    ensures
        first_named(after, other, n) == first_named(before, other, n),
    decreases n,
{
    if n > 0 {
        lemma_same_prefix_names(before, after, name, i, other, (n - 1) as nat);
        if n - 1 == i {
            lemma_first_named_prefix(before, name, (n - 1) as nat, before.len());
            lemma_first_named_range(before, name, (n - 1) as nat);
            lemma_first_named_range(before, name, before.len());
        }
    }
}

proof fn lemma_first_named_range(entries: Seq<(String, u64)>, name: Seq<char>, m: nat)
    requires
        m <= entries.len(),
    ensures
        match first_named(entries, name, m) {
            Some(k) => 0 <= k < m && entries[k].0@ == name,
            None => true,
        },
    decreases m,
{
    if m > 0 {
        lemma_first_named_range(entries, name, (m - 1) as nat);
    }
}

/// A name absent from the whole sequence is absent from each prefix, and its
/// first entry in the whole sequence lies past any prefix it is absent from.
proof fn lemma_first_named_prefix(entries: Seq<(String, u64)>, name: Seq<char>, m: nat, n: nat)
    requires
        m <= n,
        n <= entries.len(),
    ensures
        first_named(entries, name, m) is Some ==> first_named(entries, name, n) == first_named(
            entries,
            name,
            m,
        ),
        first_named(entries, name, m) is None ==> match first_named(entries, name, n) {
            Some(k) => k >= m,
            None => true,
        },
    decreases n - m,
{
    lemma_first_named_range(entries, name, m);
    if m < n {
        lemma_first_named_prefix(entries, name, m, (n - 1) as nat);
    }
}

/// Appending an entry for a name not yet present gives it that entry and
/// leaves every other name's first entry where it was.
proof fn lemma_first_named_pushed(before: Seq<(String, u64)>, after: Seq<(String, u64)>, name: Seq<char>)
    requires
        first_named(before, name, before.len()) is None,
        after.len() == before.len() + 1,
        after[before.len() as int].0@ == name,
        forall|j: int| 0 <= j < before.len() ==> after[j] == before[j],
    ensures
        first_named(after, name, after.len()) == Some(before.len() as int),
        forall|other: Seq<char>|
            other != name ==> #[trigger] first_named(after, other, after.len()) == first_named(
                before,
                other,
                before.len(),
            ),
{
    assert forall|other: Seq<char>| other != name implies #[trigger] first_named(after, other, after.len())
        == first_named(before, other, before.len()) by {
        lemma_prefix_agrees(before, after, other, before.len());
        assert(first_named(after, other, after.len()) == first_named(after, other, before.len()));
    }
    lemma_prefix_agrees(before, after, name, before.len());
}

proof fn lemma_prefix_agrees(before: Seq<(String, u64)>, after: Seq<(String, u64)>, other: Seq<char>, n: nat)
    requires
        n <= before.len(),
        after.len() >= before.len(),
        forall|j: int| 0 <= j < before.len() ==> after[j] == before[j],
    ensures
        first_named(after, other, n) == first_named(before, other, n),
    decreases n,
{
    if n > 0 {
        lemma_prefix_agrees(before, after, other, (n - 1) as nat);
    }
}


/// Re-registering an unchanged manifest does nothing: once an asset is
/// loaded from a manifest, the same manifest never needs loading again until
/// another one replaces it.
pub proof fn law_unchanged_manifest_is_not_reloaded(
    loaded: Map<Seq<char>, u64>,
    name: Seq<char>,
    hash: u64,
    other: Seq<char>,
    other_hash: u64,
)
    requires
        other != name,
    ensures
        ({
            let after = loaded.insert(name, hash);
            &&& after.contains_key(name) && after[name] == hash
            &&& after.insert(other, other_hash).contains_key(name)
            &&& after.insert(other, other_hash)[name] == hash
        }),
{
}

} // verus!
