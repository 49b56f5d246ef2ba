//! Sparse tables of tallies, for a key space too large to lay out.
//!
//! The entries are kept in ascending order of their keys, so that two tables
//! with the same content are the same in memory and list their keys in the
//! same order.
use crate::tally::{
    concat_all, key_sums, lemma_key_sums_bounded, lemma_key_sums_concat, lemma_plus_bounded,
    single_trips, Contribution, Tally, TallySums,
};
use vstd::prelude::*;

verus! {

/// No key is smaller than this.
pub const KEY_FLOOR: i64 = -0x8000_0000;

/// Every key is smaller than this.
pub const KEY_CEILING: i64 = 0x8000_0000;

/// A tally with the key that it stands under.
#[derive(Debug, Clone, Copy)]
pub struct KeyedTally {
    pub key: i32,
    pub tally: Tally,
}

/// The sums under a key: those of no trips where the key is absent.
pub open spec fn sums_at(table: Map<int, TallySums>, key: int) -> TallySums {
    if table.contains_key(key) {
        table[key]
    } else {
        TallySums::zero()
    }
}

/// Two tables added key by key; a key is present where it is in either.
pub open spec fn add_maps(a: Map<int, TallySums>, b: Map<int, TallySums>) -> Map<int, TallySums> {
    Map::new(
        |key: int| a.contains_key(key) || b.contains_key(key),
        |key: int| sums_at(a, key).plus(sums_at(b, key)),
    )
}

/// A table with a list of tables added to it, one after the other.
pub open spec fn merge_maps(base: Map<int, TallySums>, more: Seq<Map<int, TallySums>>) -> Map<
    int,
    TallySums,
>
    decreases more.len(),
{
    if more.len() == 0 {
        base
    } else {
        add_maps(merge_maps(base, more.drop_last()), more.last())
    }
}

/// Every count of the table can be held in a machine word.
pub open spec fn map_fits(table: Map<int, TallySums>) -> bool {
    forall|key: int| table.contains_key(key) ==> (#[trigger] table[key]).fits()
}

/// Every key is a 32-bit number under which a trip was counted, with
/// bounded sums.
pub open spec fn map_bounded(table: Map<int, TallySums>) -> bool {
    forall|key: int| #[trigger]
        table.contains_key(key) ==> KEY_FLOOR <= key < KEY_CEILING && table[key].trips > 0
            && table[key].bounded()
}

/// All tables of the list are bounded.
pub open spec fn maps_bounded(tables: Seq<Map<int, TallySums>>) -> bool {
    forall|i: int| 0 <= i < tables.len() ==> map_bounded(#[trigger] tables[i])
}

/// The table of a sequence of contributions: the keys under which a trip
/// was counted, each with its sums.
pub open spec fn sparse_summary(items: Seq<Contribution>) -> Map<int, TallySums> {
    Map::new(|key: int| key_sums(items, key).trips > 0, |key: int| key_sums(items, key))
}

/// The keys below `upto` with their sums, by ascending key.
pub open spec fn listing(table: Map<int, TallySums>, upto: int) -> Seq<(int, TallySums)>
    decreases upto - KEY_FLOOR,
{
    if upto <= KEY_FLOOR {
        Seq::empty()
    } else {
        let before = listing(table, upto - 1);
        if table.contains_key(upto - 1) {
            before.push((upto - 1, table[upto - 1]))
        } else {
            before
        }
    }
}

/// The keys of the entries ascend strictly.
spec fn ascending(entries: Seq<KeyedTally>) -> bool {
    forall|i: int, j: int|
        0 <= i < j < entries.len() ==> (#[trigger] entries[i]).key < (#[trigger] entries[j]).key
}

/// Whether an entry stands under the key.
spec fn holds_key(entries: Seq<KeyedTally>, key: int) -> bool {
    exists|i: int| 0 <= i < entries.len() && (#[trigger] entries[i]).key == key
}

/// The place of an entry that stands under the key.
spec fn place_of(entries: Seq<KeyedTally>, key: int) -> int {
    choose|i: int| 0 <= i < entries.len() && (#[trigger] entries[i]).key == key
}

/// The table that the entries stand for.
spec fn entries_view(entries: Seq<KeyedTally>) -> Map<int, TallySums> {
    Map::new(
        |key: int| holds_key(entries, key),
        |key: int| entries[place_of(entries, key)].tally@,
    )
}

/// The entries as pairs of key and sums.
spec fn pairs_of(entries: Seq<KeyedTally>) -> Seq<(int, TallySums)> {
    Seq::new(entries.len(), |i: int| (entries[i].key as int, entries[i].tally@))
}

/// Each entry is found in the table under its key.
proof fn lemma_entry_in_view(entries: Seq<KeyedTally>, i: int)
    requires
        ascending(entries),
        0 <= i < entries.len(),
    ensures
        entries_view(entries).contains_key(entries[i].key as int),
        entries_view(entries)[entries[i].key as int] == entries[i].tally@,
{
    let key = entries[i].key as int;
    assert(holds_key(entries, key));
    let place = place_of(entries, key);
    if place < i {
        assert(entries[place].key < entries[i].key);
    } else if place > i {
        assert(entries[i].key < entries[place].key);
    }
}

/// Entries that hold what a table holds, and nothing else, stand for it.
proof fn lemma_entries_view(entries: Seq<KeyedTally>, table: Map<int, TallySums>)
    requires
        forall|i: int|
            0 <= i < entries.len() ==> table.contains_key((#[trigger] entries[i]).key as int)
                && table[entries[i].key as int] == entries[i].tally@,
        forall|key: int| #[trigger] table.contains_key(key) ==> holds_key(entries, key),
    ensures
        entries_view(entries) == table,
{
    let view = entries_view(entries);
    assert forall|key: int| view.contains_key(key) == table.contains_key(key) by {
        if holds_key(entries, key) {
            let place = place_of(entries, key);
            assert(table.contains_key(entries[place].key as int));
        }
    }
    assert forall|key: int| view.contains_key(key) implies view[key] == table[key] by {
        let place = place_of(entries, key);
        assert(table[entries[place].key as int] == entries[place].tally@);
    }
    assert(view =~= table);
}

/// The listing holds every key of the table below `upto` once, with its
/// sums, and its keys ascend.
pub proof fn lemma_listing_ascends(table: Map<int, TallySums>, upto: int)
    ensures
        forall|i: int|
            0 <= i < listing(table, upto).len() ==> KEY_FLOOR <= (#[trigger] listing(
                table,
                upto,
            )[i]).0 < upto && table.contains_key(listing(table, upto)[i].0) && listing(
                table,
                upto,
            )[i].1 == table[listing(table, upto)[i].0],
        forall|i: int, j: int|
            0 <= i < j < listing(table, upto).len() ==> (#[trigger] listing(table, upto)[i]).0 < (
            #[trigger] listing(table, upto)[j]).0,
        forall|key: int|
            KEY_FLOOR <= key < upto && table.contains_key(key) ==> listing(table, upto).contains(
                (key, #[trigger] table[key]),
            ),
    decreases upto - KEY_FLOOR,
{
    if upto > KEY_FLOOR {
        lemma_listing_ascends(table, upto - 1);
        let before = listing(table, upto - 1);
        let all = listing(table, upto);
        assert forall|key: int| KEY_FLOOR <= key < upto && table.contains_key(key) implies all.contains(
            (key, #[trigger] table[key]),
        ) by {
            if key == upto - 1 {
                assert(all[before.len() as int] == (key, table[key]));
            } else {
                let at = choose|at: int| 0 <= at < before.len() && before[at] == (key, table[key]);
                assert(all[at] == before[at]);
            }
        }
    }
}

/// Where a table has no key in a range, the listing does not grow over it.
pub proof fn lemma_listing_gap(table: Map<int, TallySums>, from: int, upto: int)
    requires
        from <= upto,
        forall|key: int| from <= key < upto ==> !table.contains_key(key),
    ensures
        listing(table, upto) == listing(table, from),
    decreases upto - from,
{
    if from < upto {
        lemma_listing_gap(table, from, upto - 1);
        if upto <= KEY_FLOOR {
            assert(listing(table, upto - 1) == Seq::<(int, TallySums)>::empty());
        }
    }
}

/// The key from which on no entry before the place `i` is found.
spec fn bound_at(entries: Seq<KeyedTally>, i: int) -> int {
    if i < entries.len() {
        entries[i].key as int
    } else {
        KEY_CEILING as int
    }
}

/// The listing of the table below the key of an entry holds the entries
/// before it, in their order.
proof fn lemma_listing_prefix(entries: Seq<KeyedTally>, i: int)
    requires
        ascending(entries),
        0 <= i <= entries.len(),
    ensures
        listing(entries_view(entries), bound_at(entries, i)) == pairs_of(entries.take(i)),
    decreases i,
{
    let table = entries_view(entries);
    let bound = bound_at(entries, i);
    if i == 0 {
        assert forall|key: int| KEY_FLOOR <= key < bound implies !table.contains_key(key) by {
            if holds_key(entries, key) {
                let place = place_of(entries, key);
                if place > 0 {
                    assert(entries[0].key < entries[place].key);
                }
            }
        }
        lemma_listing_gap(table, KEY_FLOOR as int, bound);
        assert(listing(table, KEY_FLOOR as int) =~= pairs_of(entries.take(0)));
    } else {
        lemma_listing_prefix(entries, i - 1);
        let key = entries[i - 1].key as int;
        lemma_entry_in_view(entries, i - 1);
        assert(listing(table, key + 1) == listing(table, key).push((key, table[key])));
        assert(pairs_of(entries.take(i - 1)).push((key, table[key])) =~= pairs_of(
            entries.take(i),
        ));
        assert forall|other: int| key + 1 <= other < bound implies !table.contains_key(other) by {
            if holds_key(entries, other) {
                let place = place_of(entries, other);
                if place < i - 1 {
                    assert(entries[place].key < entries[i - 1].key);
                } else if place > i - 1 {
                    if i < entries.len() && place > i {
                        assert(entries[i].key < entries[place].key);
                    }
                }
            }
        }
        lemma_listing_gap(table, key + 1, bound);
    }
}

/// Where no trip was counted under a key, all its sums are zero.
pub proof fn lemma_key_sums_zero(items: Seq<Contribution>, key: int)
    requires
        single_trips(items),
    ensures
        key_sums(items, key).trips == 0 ==> key_sums(items, key) == TallySums::zero(),
    decreases items.len(),
{
    if items.len() > 0 {
        let rest = items.drop_last();
        assert forall|i: int| 0 <= i < rest.len() implies (#[trigger] rest[i]).sums.trips == 1
            && rest[i].sums.bounded() by {
            assert(rest[i] == items[i]);
        }
        lemma_key_sums_zero(rest, key);
        assert(items.last() == items[items.len() - 1]);
    }
}

/// The table of two batches in a row is the sum of their tables.
pub proof fn lemma_sparse_concat(a: Seq<Contribution>, b: Seq<Contribution>)
    requires
        single_trips(a),
        single_trips(b),
    ensures
        sparse_summary(a + b) == add_maps(sparse_summary(a), sparse_summary(b)),
{
    let whole = sparse_summary(a + b);
    let sum = add_maps(sparse_summary(a), sparse_summary(b));
    assert forall|key: int| #[trigger] whole.dom().contains(key) == sum.dom().contains(key) by {
        lemma_key_sums_concat(a, b, key);
    }
    assert forall|key: int| #[trigger] whole.dom().contains(key) implies whole[key] == sum[key] by {
        lemma_key_sums_concat(a, b, key);
        lemma_key_sums_zero(a, key);
        lemma_key_sums_zero(b, key);
    }
    assert(whole.dom() =~= sum.dom());
    assert(whole =~= sum);
}

/// The tables of the batches of a list.
pub open spec fn sparse_summaries(batches: Seq<Seq<Contribution>>) -> Seq<Map<int, TallySums>> {
    Seq::new(batches.len(), |i: int| sparse_summary(batches[i]))
}

/// Every batch of the list holds single trips.
pub open spec fn single_trip_batches(batches: Seq<Seq<Contribution>>) -> bool {
    forall|i: int| 0 <= i < batches.len() ==> single_trips(#[trigger] batches[i])
}

/// All batches in a row hold single trips where each batch does.
pub proof fn lemma_concat_single(batches: Seq<Seq<Contribution>>)
    requires
        single_trip_batches(batches),
    ensures
        single_trips(concat_all(batches)),
    decreases batches.len(),
{
    if batches.len() > 0 {
        let shorter = batches.drop_last();
        assert forall|i: int| 0 <= i < shorter.len() implies single_trips(
            #[trigger] shorter[i],
        ) by {
            assert(shorter[i] == batches[i]);
        }
        lemma_concat_single(shorter);
        let head = concat_all(shorter);
        let tail = batches.last();
        assert(single_trips(tail)) by {
            assert(tail == batches[batches.len() - 1]);
        }
        assert forall|i: int| 0 <= i < (head + tail).len() implies (#[trigger] (head
            + tail)[i]).sums.trips == 1 && (head + tail)[i].sums.bounded() by {
            if i < head.len() {
                assert((head + tail)[i] == head[i]);
            } else {
                assert((head + tail)[i] == tail[i - head.len()]);
            }
        }
    }
}

/// However a sequence of single trips is cut into batches, the tables of
/// the batches merge into the table of the whole sequence.
pub proof fn lemma_sparse_batches_merge_to_whole(batches: Seq<Seq<Contribution>>)
    requires
        single_trip_batches(batches),
    ensures
        merge_maps(Map::empty(), sparse_summaries(batches)) == sparse_summary(
            concat_all(batches),
        ),
    decreases batches.len(),
{
    let tables = sparse_summaries(batches);
    if batches.len() == 0 {
        assert(sparse_summary(Seq::empty()) =~= Map::<int, TallySums>::empty());
    } else {
        let shorter = batches.drop_last();
        assert forall|i: int| 0 <= i < shorter.len() implies single_trips(
            #[trigger] shorter[i],
        ) by {
            assert(shorter[i] == batches[i]);
        }
        lemma_sparse_batches_merge_to_whole(shorter);
        assert(tables.drop_last() =~= sparse_summaries(shorter));
        assert(tables.last() == sparse_summary(batches.last()));
        lemma_concat_single(shorter);
        assert(single_trips(batches.last())) by {
            assert(batches.last() == batches[batches.len() - 1]);
        }
        lemma_sparse_concat(concat_all(shorter), batches.last());
    }
}

/// Adding tables is commutative.
pub proof fn lemma_add_maps_commutes(a: Map<int, TallySums>, b: Map<int, TallySums>)
    ensures
        add_maps(a, b) == add_maps(b, a),
{
    assert(add_maps(a, b) =~= add_maps(b, a));
}

/// Adding tables is associative.
pub proof fn lemma_add_maps_associates(
    a: Map<int, TallySums>,
    b: Map<int, TallySums>,
    c: Map<int, TallySums>,
)
    ensures
        add_maps(add_maps(a, b), c) == add_maps(a, add_maps(b, c)),
{
    assert(add_maps(add_maps(a, b), c) =~= add_maps(a, add_maps(b, c)));
}

/// A merge of bounded tables is bounded, and no count in it is smaller than
/// it was after a part of the list.
pub proof fn lemma_merge_maps_grows(
    base: Map<int, TallySums>,
    more: Seq<Map<int, TallySums>>,
    part: int,
)
    requires
        map_bounded(base),
        maps_bounded(more),
        0 <= part <= more.len(),
    ensures
        map_bounded(merge_maps(base, more)),
        forall|key: int|
            sums_at(merge_maps(base, more.take(part)), key).trips <= (#[trigger] sums_at(
                merge_maps(base, more),
                key,
            )).trips,
    decreases more.len(),
{
    if more.len() == 0 {
        assert(more.take(part) =~= more);
    } else {
        let shorter = more.drop_last();
        assert(maps_bounded(shorter)) by {
            assert forall|i: int| 0 <= i < shorter.len() implies map_bounded(
                #[trigger] shorter[i],
            ) by {
                assert(shorter[i] == more[i]);
            }
        }
        let last = more.last();
        assert(map_bounded(last)) by {
            assert(last == more[more.len() - 1]);
        }
        if part == more.len() {
            assert(more.take(part) =~= more);
            lemma_merge_maps_grows(base, shorter, shorter.len() as int);
        } else {
            lemma_merge_maps_grows(base, shorter, part);
            assert(shorter.take(part) =~= more.take(part));
        }
        let merged = merge_maps(base, shorter);
        let whole = merge_maps(base, more);
        assert forall|key: int| #[trigger] whole.contains_key(key) implies KEY_FLOOR <= key
            < KEY_CEILING && whole[key].trips > 0 && whole[key].bounded() by {
            if merged.contains_key(key) && last.contains_key(key) {
                lemma_plus_bounded(merged[key], last[key]);
            }
        }
        assert forall|key: int|
            sums_at(merge_maps(base, more.take(part)), key).trips <= (#[trigger] sums_at(
                whole,
                key,
            )).trips by {
            assert(sums_at(merge_maps(base, shorter.take(part)), key).trips <= sums_at(
                merged,
                key,
            ).trips || part == more.len());
        }
    }
}

/// A sparse table of tallies. A key is present where at least one trip was
/// counted under it.
#[derive(Debug)]
pub struct SparseTable {
    entries: Vec<KeyedTally>,
}

impl View for SparseTable {
    type V = Map<int, TallySums>;

    closed spec fn view(&self) -> Map<int, TallySums> {
        entries_view(self.entries@)
    }
}

impl SparseTable {
    /// The entries ascend by key and each counts a trip.
    pub closed spec fn ordered(&self) -> bool {
        &&& ascending(self.entries@)
        &&& forall|i: int| 0 <= i < self.entries@.len() ==> (#[trigger] self.entries@[i]).tally.trips > 0
    }

    /// The entries are in order and every entry is bounded.
    pub open spec fn well_formed(&self) -> bool {
        self.ordered() && map_bounded(self@)
    }

    /// The counts of a table in memory fit a machine word.
    pub proof fn lemma_fits(&self)
        requires
            self.ordered(),
        ensures
            map_fits(self@),
    {
        assert forall|key: int| self@.contains_key(key) implies (#[trigger] self@[key]).fits() by {
            let place = place_of(self.entries@, key);
            assert(self.entries@[place].tally@.fits());
        }
    }

    /// A table without any key.
    pub fn new() -> (table: SparseTable)
        ensures
            table@ == Map::<int, TallySums>::empty(),
            table.well_formed(),
    {
        let table = SparseTable { entries: Vec::new() };
        assert(table@ =~= Map::<int, TallySums>::empty());
        table
    }

    /// Number of keys.
    pub fn len(&self) -> (size: usize)
        requires
            self.ordered(),
        ensures
            size == listing(self@, KEY_CEILING as int).len(),
    {
        proof {
            lemma_listing_prefix(self.entries@, self.entries@.len() as int);
            assert(self.entries@.take(self.entries@.len() as int) =~= self.entries@);
        }
        self.entries.len()
    }

    /// Whether the table has no key.
    pub fn is_empty(&self) -> (empty: bool)
        ensures
            empty == (self@ == Map::<int, TallySums>::empty()),
    {
        let empty = self.entries.len() == 0;
        proof {
            if empty {
                assert(self@ =~= Map::<int, TallySums>::empty());
            } else {
                assert(holds_key(self.entries@, self.entries@[0].key as int));
                assert(self@.contains_key(self.entries@[0].key as int));
            }
        }
        empty
    }

    /// The entry at a place in ascending order of the keys.
    pub fn entry(&self, place: usize) -> (entry: KeyedTally)
        requires
            self.well_formed(),
            place < listing(self@, KEY_CEILING as int).len(),
        ensures
            (entry.key as int, entry.tally@) == listing(self@, KEY_CEILING as int)[place as int],
            entry.tally@.trips > 0,
            entry.tally@.bounded(),
    {
        proof {
            lemma_listing_prefix(self.entries@, self.entries@.len() as int);
            assert(self.entries@.take(self.entries@.len() as int) =~= self.entries@);
            lemma_entry_in_view(self.entries@, place as int);
        }
        self.entries[place]
    }

    /// The place of the first entry whose key is not below `key`, and
    /// whether that entry stands under `key`.
    fn find(&self, key: i32) -> (found: (usize, bool))
        requires
            self.ordered(),
        ensures
            found.0 <= self.entries@.len(),
            forall|i: int| 0 <= i < found.0 ==> (#[trigger] self.entries@[i]).key < key,
            forall|i: int|
                found.0 <= i < self.entries@.len() ==> (#[trigger] self.entries@[i]).key >= key,
            found.1 == (found.0 < self.entries@.len() && self.entries@[found.0 as int].key == key),
            found.1 == self@.contains_key(key as int),
    {
        let mut place: usize = 0;
        while place < self.entries.len() && self.entries[place].key < key
            invariant
                place <= self.entries@.len(),
                forall|i: int| 0 <= i < place ==> (#[trigger] self.entries@[i]).key < key,
            decreases self.entries@.len() - place,
        {
            place += 1;
        }
        let found = place < self.entries.len() && self.entries[place].key == key;
        proof {
            assert forall|i: int| place <= i < self.entries@.len() implies (
            #[trigger] self.entries@[i]).key >= key by {
                if i > place {
                    assert(self.entries@[place as int].key < self.entries@[i].key);
                }
            }
            if found {
                assert(holds_key(self.entries@, key as int));
            } else if holds_key(self.entries@, key as int) {
                let at = place_of(self.entries@, key as int);
                assert(self.entries@[at].key == key);
            }
        }
        (place, found)
    }

    /// The trips counted under a key, zero where it is absent.
    pub fn trips_at(&self, key: i32) -> (trips: usize)
        requires
            self.ordered(),
        ensures
            trips == sums_at(self@, key as int).trips,
    {
        let (place, found) = self.find(key);
        if found {
            proof {
                lemma_entry_in_view(self.entries@, place as int);
            }
            self.entries[place].tally.trips
        } else {
            0
        }
    }

    /// Adds a tally that counts a trip under a key.
    pub fn add_at(&mut self, key: i32, item: &Tally)
        requires
            old(self).well_formed(),
            item@.trips > 0,
            item@.bounded(),
            sums_at(old(self)@, key as int).plus(item@).fits(),
        ensures
            final(self)@ == old(self)@.insert(key as int, sums_at(old(self)@, key as int).plus(item@)),
            final(self).well_formed(),
    {
        let (place, found) = self.find(key);
        let ghost before = self.entries@;
        let ghost target = self@.insert(key as int, sums_at(self@, key as int).plus(item@));
        if found {
            proof {
                lemma_entry_in_view(before, place as int);
            }
            let sum = self.entries[place].tally.plus(item);
            self.entries.set(place, KeyedTally { key, tally: sum });
            proof {
                let after = self.entries@;
                assert forall|i: int| 0 <= i < after.len() implies target.contains_key(
                    (#[trigger] after[i]).key as int,
                ) && target[after[i].key as int] == after[i].tally@ by {
                    if i != place {
                        assert(after[i] == before[i]);
                        lemma_entry_in_view(before, i);
                        if i < place {
                            assert(before[i].key < before[place as int].key);
                        } else {
                            assert(before[place as int].key < before[i].key);
                        }
                    }
                }
                assert forall|other: int| #[trigger] target.contains_key(other) implies holds_key(
                    after,
                    other,
                ) by {
                    if other == key {
                        assert(after[place as int].key == key);
                    } else {
                        let at = place_of(before, other);
                        assert(after[at].key == other);
                    }
                }
                lemma_entries_view(after, target);
            }
        } else {
            self.entries.insert(place, KeyedTally { key, tally: *item });
            proof {
                let after = self.entries@;
                assert forall|i: int, j: int| 0 <= i < j < after.len() implies (
                #[trigger] after[i]).key < (#[trigger] after[j]).key by {
                    if j < place {
                        assert(after[i] == before[i] && after[j] == before[j]);
                    } else if j == place {
                        assert(after[i] == before[i]);
                    } else if i < place {
                        assert(after[i] == before[i] && after[j] == before[j - 1]);
                    } else if i == place {
                        assert(after[j] == before[j - 1]);
                    } else {
                        assert(after[i] == before[i - 1] && after[j] == before[j - 1]);
                    }
                }
                assert forall|i: int| 0 <= i < after.len() implies (
                #[trigger] after[i]).tally.trips > 0 by {
                    if i < place {
                        assert(after[i] == before[i]);
                    } else if i > place {
                        assert(after[i] == before[i - 1]);
                    }
                }
                assert forall|i: int| 0 <= i < after.len() implies target.contains_key(
                    (#[trigger] after[i]).key as int,
                ) && target[after[i].key as int] == after[i].tally@ by {
                    if i < place {
                        assert(after[i] == before[i]);
                        lemma_entry_in_view(before, i);
                    } else if i > place {
                        assert(after[i] == before[i - 1]);
                        lemma_entry_in_view(before, i - 1);
                    }
                }
                assert forall|other: int| #[trigger] target.contains_key(other) implies holds_key(
                    after,
                    other,
                ) by {
                    if other == key {
                        assert(after[place as int].key == key);
                    } else {
                        let at = place_of(before, other);
                        if at < place {
                            assert(after[at].key == other);
                        } else {
                            assert(after[at + 1].key == other);
                        }
                    }
                }
                lemma_entries_view(after, target);
            }
        }
        proof {
            assert forall|other: int| #[trigger] self@.contains_key(other) implies KEY_FLOOR
                <= other < KEY_CEILING && self@[other].trips > 0 && self@[other].bounded() by {
                if other == key {
                    if old(self)@.contains_key(key as int) {
                        lemma_plus_bounded(old(self)@[key as int], item@);
                    }
                } else {
                    assert(old(self)@.contains_key(other));
                }
            }
        }
    }

    /// A table with the same entries.
    pub fn copy(&self) -> (twin: SparseTable)
        ensures
            twin@ == self@,
            twin.ordered() == self.ordered(),
    {
        let mut entries: Vec<KeyedTally> = Vec::new();
        let mut place: usize = 0;
        while place < self.entries.len()
            invariant
                place <= self.entries@.len(),
                entries@.len() == place,
                forall|j: int| 0 <= j < place ==> entries@[j] == self.entries@[j],
            decreases self.entries@.len() - place,
        {
            entries.push(self.entries[place]);
            place += 1;
        }
        assert(entries@ =~= self.entries@);
        SparseTable { entries }
    }

    /// Adds another table key by key. Where a count would leave the range
    /// of a machine word, nothing is added.
    pub fn absorb(&mut self, other: &SparseTable) -> (ok: bool)
        requires
            old(self).well_formed(),
            other.well_formed(),
        ensures
            ok == map_fits(add_maps(old(self)@, other@)),
            ok ==> final(self)@ == add_maps(old(self)@, other@),
            !ok ==> *final(self) == *old(self),
            final(self).well_formed(),
    {
        let mut sum = self.copy();
        if sum.add_all(other) {
            self.entries = sum.entries;
            true
        } else {
            false
        }
    }

    /// Adds another table key by key, as far as the counts stay in the
    /// range of a machine word; reports whether all of it was added.
    fn add_all(&mut self, other: &SparseTable) -> (ok: bool)
        requires
            old(self).well_formed(),
            other.well_formed(),
        ensures
            ok == map_fits(add_maps(old(self)@, other@)),
            ok ==> final(self)@ == add_maps(old(self)@, other@),
            final(self).well_formed(),
    {
        let ghost before = self@;
        let mut place: usize = 0;
        proof {
            assert(entries_view(other.entries@.take(0)) =~= Map::<int, TallySums>::empty());
            assert(self@ =~= add_maps(before, Map::<int, TallySums>::empty()));
        }
        while place < other.entries.len()
            invariant
                place <= other.entries@.len(),
                self.well_formed(),
                other.well_formed(),
                before == old(self)@,
                map_bounded(before),
                self@ == add_maps(before, entries_view(other.entries@.take(place as int))),
            decreases other.entries@.len() - place,
        {
            let entry = other.entries[place];
            let ghost done = other.entries@.take(place as int);
            let ghost next = other.entries@.take(place + 1);
            proof {
                lemma_entry_in_view(other.entries@, place as int);
                assert(!holds_key(done, entry.key as int)) by {
                    if holds_key(done, entry.key as int) {
                        let at = place_of(done, entry.key as int);
                        assert(done[at] == other.entries@[at]);
                        assert(other.entries@[at].key < other.entries@[place as int].key);
                    }
                }
                assert(sums_at(self@, entry.key as int) == sums_at(before, entry.key as int));
            }
            if entry.tally.trips > usize::MAX - self.trips_at(entry.key) {
                proof {
                    let sum = add_maps(before, other@);
                    assert(sum.contains_key(entry.key as int));
                    assert(!sum[entry.key as int].fits());
                }
                return false;
            }
            self.add_at(entry.key, &entry.tally);
            proof {
                assert(ascending(next)) by {
                    assert forall|i: int, j: int| 0 <= i < j < next.len() implies (
                    #[trigger] next[i]).key < (#[trigger] next[j]).key by {
                        assert(next[i] == other.entries@[i] && next[j] == other.entries@[j]);
                    }
                }
                let grown = entries_view(done).insert(entry.key as int, entry.tally@);
                assert forall|i: int| 0 <= i < next.len() implies grown.contains_key(
                    (#[trigger] next[i]).key as int,
                ) && grown[next[i].key as int] == next[i].tally@ by {
                    if i < place {
                        assert(next[i] == done[i]);
                        assert(ascending(done)) by {
                            assert forall|a: int, b: int| 0 <= a < b < done.len() implies (
                            #[trigger] done[a]).key < (#[trigger] done[b]).key by {
                                assert(done[a] == other.entries@[a] && done[b]
                                    == other.entries@[b]);
                            }
                        }
                        lemma_entry_in_view(done, i);
                        assert(other.entries@[i].key < other.entries@[place as int].key);
                    }
                }
                assert forall|key: int| #[trigger] grown.contains_key(key) implies holds_key(
                    next,
                    key,
                ) by {
                    if key == entry.key {
                        assert(next[place as int].key == key);
                    } else {
                        let at = place_of(done, key);
                        assert(next[at].key == key);
                    }
                }
                lemma_entries_view(next, grown);
                assert(self@ =~= add_maps(before, entries_view(next)));
            }
            place += 1;
        }
        proof {
            assert(other.entries@.take(other.entries@.len() as int) =~= other.entries@);
            self.lemma_fits();
        }
        true
    }
}

} // verus!
