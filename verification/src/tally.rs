//! Running sums per key, and dense tables of them.
//!
//! Every statistic of the library is a table from a small key space to a
//! tally: a count of trips and up to four sums. A trip contributes a tally
//! to at most one key. Tables are added key by key, so the table of a set of
//! trips does not depend on how the set was cut into batches.
use vstd::prelude::*;

verus! {

/// No 64-bit value is larger than this in size.
pub const VALUE_LIMIT: i128 = 0x8000_0000_0000_0000;

/// The sums kept for one key, as unbounded numbers.
pub struct TallySums {
    /// Number of trips counted.
    pub trips: nat,
    /// Number of trips whose coordinates entered the sums.
    pub points: nat,
    /// The four sums; which quantity each one holds is said by the rule
    /// under which the trips enter the table.
    pub first: int,
    pub second: int,
    pub third: int,
    pub fourth: int,
}

/// Whether a sum over `trips` values of at most `VALUE_LIMIT` in size can be `sum`.
pub open spec fn within_limit(sum: int, trips: nat) -> bool {
    -(trips * VALUE_LIMIT) <= sum <= trips * VALUE_LIMIT
}

impl TallySums {
    /// The sums of no trips.
    pub open spec fn zero() -> TallySums {
        TallySums { trips: 0, points: 0, first: 0, second: 0, third: 0, fourth: 0 }
    }

    /// Sum by sum.
    pub open spec fn plus(self, other: TallySums) -> TallySums {
        TallySums {
            trips: self.trips + other.trips,
            points: self.points + other.points,
            first: self.first + other.first,
            second: self.second + other.second,
            third: self.third + other.third,
            fourth: self.fourth + other.fourth,
        }
    }

    /// Each sum is one that so many trips with 64-bit values can reach.
    pub open spec fn bounded(self) -> bool {
        &&& self.points <= self.trips
        &&& within_limit(self.first, self.trips)
        &&& within_limit(self.second, self.trips)
        &&& within_limit(self.third, self.trips)
        &&& within_limit(self.fourth, self.trips)
    }

    /// The count of trips can be held in a machine word.
    pub open spec fn fits(self) -> bool {
        self.trips <= usize::MAX
    }
}

/// The sums kept for one key.
#[derive(Debug, Clone, Copy)]
pub struct Tally {
    /// Number of trips counted.
    pub trips: usize,
    /// Number of trips whose coordinates entered the sums.
    pub points: usize,
    /// The four sums, wide enough for as many 64-bit values as can be
    /// counted.
    pub first: i128,
    pub second: i128,
    pub third: i128,
    pub fourth: i128,
}

impl View for Tally {
    type V = TallySums;

    open spec fn view(&self) -> TallySums {
        TallySums {
            trips: self.trips as nat,
            points: self.points as nat,
            first: self.first as int,
            second: self.second as int,
            third: self.third as int,
            fourth: self.fourth as int,
        }
    }
}

impl Tally {
    /// The tally of no trips.
    pub fn zero() -> (tally: Tally)
        ensures
            tally@ == TallySums::zero(),
    {
        Tally { trips: 0, points: 0, first: 0, second: 0, third: 0, fourth: 0 }
    }

    /// Sum by sum, where the count of trips still fits.
    pub fn plus(&self, other: &Tally) -> (sum: Tally)
        requires
            self@.bounded(),
            other@.bounded(),
            self@.plus(other@).fits(),
        ensures
            sum@ == self@.plus(other@),
            sum@.bounded(),
    {
        Tally {
            trips: self.trips + other.trips,
            points: self.points + other.points,
            first: self.first + other.first,
            second: self.second + other.second,
            third: self.third + other.third,
            fourth: self.fourth + other.fourth,
        }
    }
}

/// What one trip adds to a table: nothing where it is not counted, else its
/// sums under its key.
pub struct Contribution {
    pub counted: bool,
    pub key: int,
    pub sums: TallySums,
}

/// The sums of the contributions made under one key.
pub open spec fn key_sums(items: Seq<Contribution>, key: int) -> TallySums
    decreases items.len(),
{
    if items.len() == 0 {
        TallySums::zero()
    } else {
        let before = key_sums(items.drop_last(), key);
        if items.last().counted && items.last().key == key {
            before.plus(items.last().sums)
        } else {
            before
        }
    }
}

/// Number of contributions that are counted.
pub open spec fn counted_trips(items: Seq<Contribution>) -> nat
    decreases items.len(),
{
    if items.len() == 0 {
        0
    } else if items.last().counted {
        counted_trips(items.drop_last()) + 1
    } else {
        counted_trips(items.drop_last())
    }
}

/// Two batches in a row count as many trips as both together, and a batch
/// counts no more trips than it holds.
pub proof fn lemma_counted_concat(a: Seq<Contribution>, b: Seq<Contribution>)
    ensures
        counted_trips(a + b) == counted_trips(a) + counted_trips(b),
        counted_trips(b) <= b.len(),
    decreases b.len(),
{
    if b.len() == 0 {
        assert(a + b =~= a);
    } else {
        assert((a + b).drop_last() =~= a + b.drop_last());
        assert((a + b).last() == b.last());
        lemma_counted_concat(a, b.drop_last());
    }
}

/// Each contribution counts one trip and carries bounded sums.
pub open spec fn single_trips(items: Seq<Contribution>) -> bool {
    forall|i: int|
        0 <= i < items.len() ==> (#[trigger] items[i]).sums.trips == 1 && items[i].sums.bounded()
}

/// The table over the keys `0..size` of a sequence of contributions.
pub open spec fn dense_summary(items: Seq<Contribution>, size: nat) -> Seq<TallySums> {
    Seq::new(size, |key: int| key_sums(items, key))
}

/// The table of `size` keys without any trip.
pub open spec fn zero_table(size: nat) -> Seq<TallySums> {
    Seq::new(size, |key: int| TallySums::zero())
}

/// Two tables over the same keys, added key by key.
pub open spec fn add_tables(a: Seq<TallySums>, b: Seq<TallySums>) -> Seq<TallySums> {
    Seq::new(a.len(), |key: int| a[key].plus(b[key]))
}

/// A table with a list of tables added to it, one after the other.
pub open spec fn merge_tables(base: Seq<TallySums>, more: Seq<Seq<TallySums>>) -> Seq<TallySums>
    decreases more.len(),
{
    if more.len() == 0 {
        base
    } else {
        add_tables(merge_tables(base, more.drop_last()), more.last())
    }
}

/// Every count of the table can be held in a machine word.
pub open spec fn table_fits(table: Seq<TallySums>) -> bool {
    forall|key: int| 0 <= key < table.len() ==> (#[trigger] table[key]).fits()
}

/// Every entry of the table is bounded.
pub open spec fn table_bounded(table: Seq<TallySums>) -> bool {
    forall|key: int| 0 <= key < table.len() ==> (#[trigger] table[key]).bounded()
}

/// All tables of the list have `size` keys and bounded entries.
pub open spec fn tables_bounded(tables: Seq<Seq<TallySums>>, size: nat) -> bool {
    forall|i: int|
        0 <= i < tables.len() ==> (#[trigger] tables[i]).len() == size && table_bounded(tables[i])
}

/// All batches of a list, one after the other.
pub open spec fn concat_all<T>(batches: Seq<Seq<T>>) -> Seq<T>
    decreases batches.len(),
{
    if batches.len() == 0 {
        Seq::empty()
    } else {
        concat_all(batches.drop_last()) + batches.last()
    }
}

/// One more contribution changes the sums of its own key only.
pub proof fn lemma_key_sums_push(items: Seq<Contribution>, item: Contribution, key: int)
    ensures
        key_sums(items.push(item), key) == if item.counted && item.key == key {
            key_sums(items, key).plus(item.sums)
        } else {
            key_sums(items, key)
        },
{
    assert(items.push(item).drop_last() =~= items);
}

/// Where no trip of a batch is counted, the batch adds nothing under any
/// key.
pub proof fn lemma_nothing_counted(items: Seq<Contribution>, key: int)
    requires
        forall|i: int| 0 <= i < items.len() ==> !(#[trigger] items[i]).counted,
    ensures
        key_sums(items, key) == TallySums::zero(),
        counted_trips(items) == 0,
    decreases items.len(),
{
    if items.len() > 0 {
        let rest = items.drop_last();
        assert forall|i: int| 0 <= i < rest.len() implies !(#[trigger] rest[i]).counted by {
            assert(rest[i] == items[i]);
        }
        lemma_nothing_counted(rest, key);
        assert(items.last() == items[items.len() - 1]);
    }
}

/// The sums of a batch of single trips are bounded, and count no more trips
/// than the batch holds.
pub proof fn lemma_key_sums_bounded(items: Seq<Contribution>, key: int)
    requires
        single_trips(items),
    ensures
        key_sums(items, key).bounded(),
        key_sums(items, key).trips <= items.len(),
    decreases items.len(),
{
    if items.len() > 0 {
        let rest = items.drop_last();
        assert forall|i: int| 0 <= i < rest.len() implies (#[trigger] rest[i]).sums.trips == 1
            && rest[i].sums.bounded() by {
            assert(rest[i] == items[i]);
        }
        lemma_key_sums_bounded(rest, key);
        let last = items.last();
        assert(last == items[items.len() - 1]);
    }
}

/// The sums of two batches in a row are the sums of each, added.
pub proof fn lemma_key_sums_concat(a: Seq<Contribution>, b: Seq<Contribution>, key: int)
    ensures
        key_sums(a + b, key) == key_sums(a, key).plus(key_sums(b, key)),
    decreases b.len(),
{
    if b.len() == 0 {
        assert(a + b =~= a);
    } else {
        assert((a + b).drop_last() =~= a + b.drop_last());
        assert((a + b).last() == b.last());
        lemma_key_sums_concat(a, b.drop_last(), key);
    }
}

/// The table of two batches in a row is the sum of their tables.
pub proof fn lemma_summary_concat(a: Seq<Contribution>, b: Seq<Contribution>, size: nat)
    ensures
        dense_summary(a + b, size) == add_tables(dense_summary(a, size), dense_summary(b, size)),
{
    assert forall|key: int| 0 <= key < size implies key_sums(a + b, key) == key_sums(a, key).plus(
        key_sums(b, key),
    ) by {
        lemma_key_sums_concat(a, b, key);
    }
    assert(dense_summary(a + b, size) =~= add_tables(
        dense_summary(a, size),
        dense_summary(b, size),
    ));
}

/// Adding tables is commutative.
pub proof fn lemma_add_tables_commutes(a: Seq<TallySums>, b: Seq<TallySums>)
    requires
        a.len() == b.len(),
    ensures
        add_tables(a, b) == add_tables(b, a),
{
    assert(add_tables(a, b) =~= add_tables(b, a));
}

/// Adding tables is associative.
pub proof fn lemma_add_tables_associates(a: Seq<TallySums>, b: Seq<TallySums>, c: Seq<TallySums>)
    requires
        a.len() == b.len(),
        b.len() == c.len(),
    ensures
        add_tables(add_tables(a, b), c) == add_tables(a, add_tables(b, c)),
{
    assert(add_tables(add_tables(a, b), c) =~= add_tables(a, add_tables(b, c)));
}

/// Merging keeps the number of keys.
pub proof fn lemma_merge_len(base: Seq<TallySums>, more: Seq<Seq<TallySums>>)
    ensures
        merge_tables(base, more).len() == base.len(),
    decreases more.len(),
{
    if more.len() > 0 {
        lemma_merge_len(base, more.drop_last());
    }
}

/// Merging two lists in a row is merging the first, then the second: calling
/// merge any number of times is the same as calling it once with the lists
/// put together.
pub proof fn lemma_merge_in_steps(
    base: Seq<TallySums>,
    first: Seq<Seq<TallySums>>,
    second: Seq<Seq<TallySums>>,
)
    ensures
        merge_tables(base, first + second) == merge_tables(merge_tables(base, first), second),
    decreases second.len(),
{
    if second.len() == 0 {
        assert(first + second =~= first);
    } else {
        assert((first + second).drop_last() =~= first + second.drop_last());
        assert((first + second).last() == second.last());
        lemma_merge_in_steps(base, first, second.drop_last());
    }
}

/// The tables of the batches of a list, in the same order.
pub open spec fn batch_summaries(batches: Seq<Seq<Contribution>>, size: nat) -> Seq<
    Seq<TallySums>,
> {
    Seq::new(batches.len(), |i: int| dense_summary(batches[i], size))
}

/// However a sequence of contributions is cut into batches, the tables of
/// the batches merge into the table of the whole sequence.
pub proof fn lemma_batches_merge_to_whole(batches: Seq<Seq<Contribution>>, size: nat)
    ensures
        merge_tables(zero_table(size), batch_summaries(batches, size)) == dense_summary(
            concat_all(batches),
            size,
        ),
    decreases batches.len(),
{
    let tables = batch_summaries(batches, size);
    if batches.len() == 0 {
        assert(zero_table(size) =~= dense_summary(Seq::empty(), size));
    } else {
        let shorter = batches.drop_last();
        lemma_batches_merge_to_whole(shorter, size);
        assert(tables.drop_last() =~= batch_summaries(shorter, size));
        assert(tables.last() == dense_summary(batches.last(), size));
        lemma_summary_concat(concat_all(shorter), batches.last(), size);
    }
}

/// The table over the keys `0..size` of a sequence of trips, each of which
/// contributes what `rule` says.
pub open spec fn summary_of<T>(
    trips: Seq<T>,
    rule: spec_fn(T) -> Contribution,
    size: nat,
) -> Seq<TallySums> {
    dense_summary(trips.map_values(rule), size)
}

/// The tables of the batches of a list of batches of trips.
pub open spec fn summaries_of<T>(
    batches: Seq<Seq<T>>,
    rule: spec_fn(T) -> Contribution,
    size: nat,
) -> Seq<Seq<TallySums>> {
    Seq::new(batches.len(), |i: int| summary_of(batches[i], rule, size))
}

/// The contributions of all batches in a row are the contributions of the
/// batches, in a row.
pub proof fn lemma_contributions_concat<T>(batches: Seq<Seq<T>>, rule: spec_fn(T) -> Contribution)
    ensures
        concat_all(batches).map_values(rule) == concat_all(
            Seq::new(batches.len(), |i: int| batches[i].map_values(rule)),
        ),
    decreases batches.len(),
{
    let mapped = Seq::new(batches.len(), |i: int| batches[i].map_values(rule));
    if batches.len() == 0 {
        assert(concat_all(batches).map_values(rule) =~= concat_all(mapped));
    } else {
        let shorter = batches.drop_last();
        lemma_contributions_concat(shorter, rule);
        assert(mapped.drop_last() =~= Seq::new(
            shorter.len(),
            |i: int| shorter[i].map_values(rule),
        ));
        assert(concat_all(batches).map_values(rule) =~= concat_all(shorter).map_values(rule)
            + batches.last().map_values(rule));
    }
}

/// However a sequence of trips is cut into batches, of any sizes and in any
/// number, the tables of the batches merge into the table of the whole
/// sequence.
pub proof fn lemma_partition_independent<T>(
    batches: Seq<Seq<T>>,
    rule: spec_fn(T) -> Contribution,
    size: nat,
)
    ensures
        merge_tables(zero_table(size), summaries_of(batches, rule, size)) == summary_of(
            concat_all(batches),
            rule,
            size,
        ),
{
    let mapped = Seq::new(batches.len(), |i: int| batches[i].map_values(rule));
    lemma_contributions_concat(batches, rule);
    lemma_batches_merge_to_whole(mapped, size);
    assert(batch_summaries(mapped, size) =~= summaries_of(batches, rule, size));
}

/// A merge of bounded tables is bounded, and no count in it is smaller than
/// it was after a part of the list.
pub proof fn lemma_merge_grows(base: Seq<TallySums>, more: Seq<Seq<TallySums>>, part: int)
    requires
        table_bounded(base),
        tables_bounded(more, base.len()),
        0 <= part <= more.len(),
    ensures
        merge_tables(base, more).len() == base.len(),
        table_bounded(merge_tables(base, more)),
        forall|key: int|
            0 <= key < base.len() ==> merge_tables(base, more.take(part))[key].trips
                <= #[trigger] merge_tables(base, more)[key].trips,
    decreases more.len(),
{
    lemma_merge_len(base, more);
    if more.len() == 0 {
        assert(more.take(part) =~= more);
    } else {
        let shorter = more.drop_last();
        assert(tables_bounded(shorter, base.len())) by {
            assert forall|i: int| 0 <= i < shorter.len() implies (#[trigger] shorter[i]).len()
                == base.len() && table_bounded(shorter[i]) by {
                assert(shorter[i] == more[i]);
            }
        }
        let last = more.last();
        assert(last == more[more.len() - 1]);
        if part == more.len() {
            assert(more.take(part) =~= more);
            lemma_merge_grows(base, shorter, shorter.len() as int);
        } else {
            lemma_merge_grows(base, shorter, part);
            assert(shorter.take(part) =~= more.take(part));
        }
        let merged = merge_tables(base, shorter);
        assert forall|key: int| 0 <= key < base.len() implies (#[trigger] merge_tables(
            base,
            more,
        )[key]).bounded() by {
            assert(merged[key].bounded());
            assert(last[key].bounded());
            lemma_plus_bounded(merged[key], last[key]);
        }
    }
}

/// The sum of two bounded tallies is bounded.
pub proof fn lemma_plus_bounded(a: TallySums, b: TallySums)
    requires
        a.bounded(),
        b.bounded(),
    ensures
        a.plus(b).bounded(),
{
    assert((a.trips + b.trips) * VALUE_LIMIT == a.trips * VALUE_LIMIT + b.trips * VALUE_LIMIT)
        by (nonlinear_arith);
}

/// No trip was counted under any key of the table.
pub open spec fn table_is_empty(table: Seq<TallySums>) -> bool {
    forall|key: int| 0 <= key < table.len() ==> (#[trigger] table[key]).trips == 0
}

/// A table of tallies over the keys `0..len()`. A key is present where at
/// least one trip was counted under it.
#[derive(Debug)]
pub struct TallyTable {
    slots: Vec<Tally>,
}

impl View for TallyTable {
    type V = Seq<TallySums>;

    closed spec fn view(&self) -> Seq<TallySums> {
        Seq::new(self.slots@.len(), |key: int| self.slots@[key]@)
    }
}

impl TallyTable {
    /// Every entry is bounded.
    pub open spec fn well_formed(&self) -> bool {
        table_bounded(self@)
    }

    /// The counts of a table in memory fit a machine word.
    pub proof fn lemma_fits(&self)
        ensures
            table_fits(self@),
    {
    }

    /// A table of `size` keys without any trip.
    pub fn new(size: usize) -> (table: TallyTable)
        ensures
            table@ == zero_table(size as nat),
            table.well_formed(),
    {
        let mut slots: Vec<Tally> = Vec::new();
        let mut key: usize = 0;
        while key < size
            invariant
                key <= size,
                slots@.len() == key,
                forall|j: int| 0 <= j < key ==> (#[trigger] slots@[j])@ == TallySums::zero(),
            decreases size - key,
        {
            slots.push(Tally::zero());
            key += 1;
        }
        let table = TallyTable { slots };
        assert(table@ =~= zero_table(size as nat));
        table
    }

    /// Number of keys.
    pub fn len(&self) -> (size: usize)
        ensures
            size == self@.len(),
    {
        self.slots.len()
    }

    /// Whether no trip was counted under any key.
    pub fn is_empty(&self) -> (empty: bool)
        ensures
            empty == table_is_empty(self@),
    {
        let mut key: usize = 0;
        while key < self.slots.len()
            invariant
                key <= self.slots@.len(),
                forall|j: int| 0 <= j < key ==> (#[trigger] self@[j]).trips == 0,
            decreases self.slots@.len() - key,
        {
            if self.slots[key].trips != 0 {
                assert(self@[key as int].trips != 0);
                return false;
            }
            key += 1;
        }
        true
    }

    /// The tally under a key.
    pub fn get(&self, key: usize) -> (tally: Tally)
        requires
            key < self@.len(),
        ensures
            tally@ == self@[key as int],
    {
        self.slots[key]
    }

    /// Adds a tally under a key.
    pub fn add_at(&mut self, key: usize, item: &Tally)
        requires
            key < old(self)@.len(),
            old(self).well_formed(),
            item@.bounded(),
            old(self)@[key as int].plus(item@).fits(),
        ensures
            final(self)@ == old(self)@.update(key as int, old(self)@[key as int].plus(item@)),
            final(self).well_formed(),
    {
        let sum = self.slots[key].plus(item);
        self.slots.set(key, sum);
        assert(self@ =~= old(self)@.update(key as int, old(self)@[key as int].plus(item@)));
    }

    /// A table with the same entries.
    pub fn copy(&self) -> (twin: TallyTable)
        ensures
            twin@ == self@,
    {
        let mut slots: Vec<Tally> = Vec::new();
        let mut key: usize = 0;
        while key < self.slots.len()
            invariant
                key <= self.slots@.len(),
                slots@.len() == key,
                forall|j: int| 0 <= j < key ==> slots@[j] == self.slots@[j],
            decreases self.slots@.len() - key,
        {
            slots.push(self.slots[key]);
            key += 1;
        }
        let twin = TallyTable { slots };
        assert(twin@ =~= self@);
        twin
    }

    /// Whether another table can be added without a count leaving the
    /// range of a machine word.
    pub fn can_absorb(&self, other: &TallyTable) -> (ok: bool)
        requires
            self@.len() == other@.len(),
        ensures
            ok == table_fits(add_tables(self@, other@)),
    {
        let mut key: usize = 0;
        while key < self.slots.len()
            invariant
                key <= self.slots@.len(),
                self.slots@.len() == other.slots@.len(),
                forall|j: int|
                    0 <= j < key ==> (#[trigger] add_tables(self@, other@)[j]).fits(),
            decreases self.slots@.len() - key,
        {
            if other.slots[key].trips > usize::MAX - self.slots[key].trips {
                assert(!add_tables(self@, other@)[key as int].fits());
                return false;
            }
            assert(add_tables(self@, other@)[key as int].fits());
            key += 1;
        }
        true
    }

    /// Adds another table key by key. Where a count would leave the range
    /// of a machine word, nothing is added.
    pub fn absorb(&mut self, other: &TallyTable) -> (ok: bool)
        requires
            old(self)@.len() == other@.len(),
            old(self).well_formed(),
            other.well_formed(),
        ensures
            ok == table_fits(add_tables(old(self)@, other@)),
            ok ==> final(self)@ == add_tables(old(self)@, other@),
            !ok ==> final(self)@ == old(self)@,
            final(self).well_formed(),
    {
        if !self.can_absorb(other) {
            return false;
        }
        let ghost before = self@;
        let mut key: usize = 0;
        while key < self.slots.len()
            invariant
                key <= self.slots@.len(),
                self.slots@.len() == other.slots@.len(),
                before.len() == self.slots@.len(),
                table_bounded(before),
                other.well_formed(),
                table_fits(add_tables(before, other@)),
                forall|j: int|
                    0 <= j < key ==> (#[trigger] self.slots@[j])@ == before[j].plus(other@[j]),
                forall|j: int|
                    key <= j < self.slots@.len() ==> (#[trigger] self.slots@[j])@ == before[j],
            decreases self.slots@.len() - key,
        {
            assert(self.slots@[key as int]@ == before[key as int]);
            assert(before[key as int].bounded());
            assert(other@[key as int].bounded());
            assert(add_tables(before, other@)[key as int].fits());
            let sum = self.slots[key].plus(&other.slots[key]);
            self.slots.set(key, sum);
            key += 1;
        }
        assert(self@ =~= add_tables(before, other@));
        true
    }

    /// Adds a list of tables, one after the other. Where a count would
    /// leave the range of a machine word on the way, nothing is added.
    pub fn absorb_all(&mut self, others: &Vec<TallyTable>) -> (ok: bool)
        requires
            old(self).well_formed(),
            tables_bounded(table_views(others@), old(self)@.len()),
        ensures
            ok == table_fits(merge_tables(old(self)@, table_views(others@))),
            ok ==> final(self)@ == merge_tables(old(self)@, table_views(others@)),
            !ok ==> *final(self) == *old(self),
            final(self).well_formed(),
            final(self)@.len() == old(self)@.len(),
    {
        let ghost views = table_views(others@);
        let ghost before = self@;
        let mut merged = self.copy();
        let mut i: usize = 0;
        while i < others.len()
            invariant
                i <= others@.len(),
                views == table_views(others@),
                before == self@,
                table_bounded(before),
                tables_bounded(views, before.len()),
                merged@ == merge_tables(before, views.take(i as int)),
                merged.well_formed(),
                merged@.len() == before.len(),
            decreases others@.len() - i,
        {
            proof {
                assert(views[i as int] == others@[i as int]@);
                assert(views.take(i + 1).drop_last() =~= views.take(i as int));
                assert(views.take(i + 1).last() == views[i as int]);
            }
            if !merged.absorb(&others[i]) {
                proof {
                    lemma_merge_grows(before, views, i + 1);
                    let key = choose|key: int|
                        0 <= key < before.len() && !(#[trigger] merge_tables(
                            before,
                            views.take(i + 1),
                        )[key]).fits();
                    assert(!merge_tables(before, views)[key].fits());
                }
                return false;
            }
            i += 1;
        }
        proof {
            assert(views.take(others@.len() as int) =~= views);
            merged.lemma_fits();
        }
        self.slots = merged.slots;
        true
    }
}

/// The views of a list of tables, in the same order.
pub open spec fn table_views(tables: Seq<TallyTable>) -> Seq<Seq<TallySums>> {
    Seq::new(tables.len(), |i: int| tables[i]@)
}

} // verus!
