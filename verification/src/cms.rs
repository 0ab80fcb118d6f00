//! The count-min sketch behind `approx_topk`, and which label sets it retains.
//!
//! The sketch is a grid of counters, one row per hash. A label set's estimate is
//! the smallest of its counters. The retained label sets form a binary heap by
//! their current estimate, so that the smallest leaves when there are too many.
use std::collections::HashSet;
use vstd::prelude::*;
use xxhash_rust::xxh64::Xxh64;
use crate::number::{self, float_lt};
use crate::text::{self, LabelSet, PairView};

verus! {

/// The counters of one row.
pub const CMS_WIDTH: u32 = 27_183;

/// The rows.
pub const CMS_DEPTH: u32 = 7;

/// The most label sets that are retained.
pub const CMS_MAX_LABELS: usize = 10_000;

/// The bit pattern of two to the sixty-fourth, which an estimate starts from.
pub const ESTIMATE_START: u64 = 0x43F0_0000_0000_0000;

// ---------------------------------------------------------------------
// Keys.
// ---------------------------------------------------------------------

/// The hashes of one label set.
#[derive(Debug, Clone, Copy, PartialEq, Eq, Structural)]
pub struct SeriesKey {
    /// The first cell hash.
    pub h1: u32,
    /// The second cell hash.
    pub h2: u32,
    /// The identity under which a label set is retained.
    pub id: u64,
}

/// The streaming XXH64 hasher.
#[verifier::external_type_specification]
#[verifier::external_body]
pub struct ExXxh64(Xxh64);

/// The bytes a hasher has been fed, in order.
pub uninterp spec fn fed_bytes(x: Xxh64) -> Seq<u8>;

/// The seed a hasher was made with.
pub uninterp spec fn seed_of(x: Xxh64) -> u64;

/// The XXH64 digest of a byte sequence under a seed.
pub uninterp spec fn xxh64_digest(seed: u64, bytes: Seq<u8>) -> u64;

/// A hasher under a seed that has been fed nothing. This is `Xxh64::new`.
#[verifier::external_body]
fn xx_new(seed: u64) -> (x: Xxh64)
    ensures
        seed_of(x) == seed,
        fed_bytes(x) == Seq::<u8>::empty(),
{
    Xxh64::new(seed)
}

/// Feeds bytes to a hasher. This is `Xxh64::update`, which takes them after the
/// ones before: how they are cut into pieces makes no difference.
#[verifier::external_body]
fn xx_update(x: &mut Xxh64, bytes: &[u8])
    ensures
        seed_of(*final(x)) == seed_of(*old(x)),
        fed_bytes(*final(x)) == fed_bytes(*old(x)) + bytes@,
{
    x.update(bytes);
}

/// The digest of what a hasher has been fed. This is `Xxh64::digest`, which
/// depends on the seed and the bytes alone.
#[verifier::external_body]
fn xx_digest(x: &Xxh64) -> (d: u64)
    ensures
        d == xxh64_digest(seed_of(*x), fed_bytes(*x)),
{
    x.digest()
}

/// The bytes of label pairs: name and value and the next pair, each set off by
/// `0xFF`.
pub open spec fn joined_bytes(labels: Seq<PairView>) -> Seq<u8>
    decreases labels.len(),
{
    if labels.len() == 0 {
        Seq::empty()
    } else {
        let head = joined_bytes(labels.drop_last());
        (if labels.len() > 1 {
            head.push(0xFFu8)
        } else {
            head
        }) + vstd::utf8::encode_utf8(labels.last().0).push(0xFFu8) + vstd::utf8::encode_utf8(
            labels.last().1,
        )
    }
}

/// The bytes a label set is hashed by.
pub open spec fn stable_bytes(labels: Seq<PairView>) -> Seq<u8> {
    seq![0xFEu8] + joined_bytes(labels)
}

/// One step of the 32-bit FNV-1a hash.
pub open spec fn fnv_step(h: u32, b: u8) -> u32 {
    (h ^ (b as u32)).wrapping_mul(0x0100_0193u32)
}

/// The 32-bit FNV-1a hash.
pub open spec fn fnv1a(bytes: Seq<u8>) -> u32
    decreases bytes.len(),
{
    if bytes.len() == 0 {
        0x811c_9dc5u32
    } else {
        fnv_step(fnv1a(bytes.drop_last()), bytes.last())
    }
}

/// One step of the one-at-a-time hash.
pub open spec fn oaat_step(h: u32, b: u8) -> u32 {
    let x = h.wrapping_add(b as u32);
    let y = x.wrapping_add(x << 10u32);
    y ^ (y >> 6u32)
}

/// The steps of the one-at-a-time hash, before its end.
pub open spec fn oaat_steps(bytes: Seq<u8>) -> u32
    decreases bytes.len(),
{
    if bytes.len() == 0 {
        0u32
    } else {
        oaat_step(oaat_steps(bytes.drop_last()), bytes.last())
    }
}

/// The one-at-a-time hash.
pub open spec fn oaat(bytes: Seq<u8>) -> u32 {
    let h = oaat_steps(bytes);
    let x = h.wrapping_add(h << 3u32);
    let y = x ^ (x >> 11u32);
    y.wrapping_add(y << 15u32)
}

/// The hashes of a byte sequence.
pub open spec fn key_of(bytes: Seq<u8>) -> SeriesKey {
    SeriesKey { h1: fnv1a(bytes), h2: oaat(bytes), id: xxh64_digest(0, bytes) }
}

/// Feeds one byte sequence to all three hashes as it comes.
struct KeyHasher {
    fnv: u32,
    jen: u32,
    xx: Xxh64,
}

impl KeyHasher {
    /// Whether the hashes stand where these bytes leave them.
    spec fn at(&self, bytes: Seq<u8>) -> bool {
        &&& self.fnv == fnv1a(bytes)
        &&& self.jen == oaat_steps(bytes)
        &&& seed_of(self.xx) == 0
        &&& fed_bytes(self.xx) == bytes
    }

    fn new() -> (h: KeyHasher)
        ensures
            h.at(Seq::empty()),
    {
        KeyHasher { fnv: 0x811c_9dc5, jen: 0, xx: xx_new(0) }
    }

    /// Feeds more bytes.
    fn feed(&mut self, bytes: &[u8], Ghost(before): Ghost<Seq<u8>>)
        requires
            old(self).at(before),
        ensures
            final(self).at(before + bytes@),
    {
        let mut i: usize = 0;
        proof {
            assert(before + bytes@.take(0) =~= before);
        }
        while i < bytes.len()
            invariant
                i <= bytes@.len(),
                self.fnv == fnv1a(before + bytes@.take(i as int)),
                self.jen == oaat_steps(before + bytes@.take(i as int)),
                seed_of(self.xx) == 0,
                fed_bytes(self.xx) == before,
            decreases bytes@.len() - i,
        {
            let b: u8 = bytes[i];
            proof {
                let next = before + bytes@.take(i + 1);
                assert(next.drop_last() =~= before + bytes@.take(i as int));
                assert(next.last() == b);
            }
            self.fnv = (self.fnv ^ (b as u32)).wrapping_mul(0x0100_0193);
            let x: u32 = self.jen.wrapping_add(b as u32);
            let y: u32 = x.wrapping_add(x << 10u32);
            self.jen = y ^ (y >> 6u32);
            i = i + 1;
        }
        proof {
            assert(bytes@.take(bytes@.len() as int) =~= bytes@);
        }
        xx_update(&mut self.xx, bytes);
    }

    /// The three hashes.
    fn finish(self, Ghost(bytes): Ghost<Seq<u8>>) -> (key: SeriesKey)
        requires
            self.at(bytes),
        ensures
            key == key_of(bytes),
    {
        let h: u32 = self.jen;
        let x: u32 = h.wrapping_add(h << 3u32);
        let y: u32 = x ^ (x >> 11u32);
        SeriesKey { h1: self.fnv, h2: y.wrapping_add(y << 15u32), id: xx_digest(&self.xx) }
    }
}

/// The hashes of a label set, which is given in name order. The bytes are hashed
/// as they come and never put together.
pub fn series_key(labels: &LabelSet) -> (key: SeriesKey)
    ensures
        key == key_of(stable_bytes(text::labels_view(labels@))),
{
    let ghost view = text::labels_view(labels@);
    let mut h = KeyHasher::new();
    let lead: [u8; 1] = [0xFE];
    let sep: [u8; 1] = [0xFF];
    h.feed(&lead, Ghost(Seq::empty()));
    let mut i: usize = 0;
    proof {
        assert(view.take(0) =~= Seq::<PairView>::empty());
        assert(Seq::<u8>::empty() + lead@ =~= stable_bytes(view.take(0)));
        assert(sep@ =~= seq![0xFFu8]);
    }
    while i < labels.len()
        invariant
            i <= labels@.len(),
            view == text::labels_view(labels@),
            sep@ == seq![0xFFu8],
            h.at(stable_bytes(view.take(i as int))),
        decreases labels@.len() - i,
    {
        let ghost mut at = stable_bytes(view.take(i as int));
        proof {
            assert(view.take(i + 1).drop_last() =~= view.take(i as int));
            assert(view.take(i + 1).last() == view[i as int]);
            assert(view[i as int] == (labels@[i as int].0@, labels@[i as int].1@));
        }
        if i > 0 {
            h.feed(&sep, Ghost(at));
            proof {
                at = at + sep@;
            }
        }
        let name = labels[i].0.as_str().as_bytes();
        let value = labels[i].1.as_str().as_bytes();
        h.feed(name, Ghost(at));
        h.feed(&sep, Ghost(at + name@));
        h.feed(value, Ghost(at + name@ + sep@));
        proof {
            assert(at + name@ + sep@ + value@ =~= stable_bytes(view.take(i + 1)));
        }
        i = i + 1;
    }
    proof {
        assert(view.take(view.len() as int) =~= view);
    }
    h.finish(Ghost(stable_bytes(view)))
}

// ---------------------------------------------------------------------
// The sketch.
// ---------------------------------------------------------------------

/// The counter of a key in one row.
pub open spec fn position(key: SeriesKey, row: u32) -> u32 {
    key.h1.wrapping_add(row.wrapping_mul(key.h2)) % CMS_WIDTH
}

/// The place of that counter in the grid.
pub open spec fn cell_index(key: SeriesKey, row: int) -> int {
    row * CMS_WIDTH + position(key, row as u32)
}

/// The smallest of a key's counters in the first `rows` rows.
pub open spec fn smallest(counters: Seq<u64>, key: SeriesKey, rows: int) -> u64
    decreases rows,
{
    if rows <= 0 {
        ESTIMATE_START
    } else {
        let min = smallest(counters, key, rows - 1);
        let cell = counters[cell_index(key, rows - 1)];
        if number::number_lt(cell, min) {
            cell
        } else {
            min
        }
    }
}

/// Whether only counters of a key in the first `rows` rows differ.
pub open spec fn unmoved(before: Seq<u64>, after: Seq<u64>, key: SeriesKey, rows: int) -> bool {
    forall|i: int|
        0 <= i < before.len() && (forall|row: int|
            0 <= row < rows ==> i != #[trigger] cell_index(key, row)) ==> #[trigger] after[i]
            == before[i]
}

/// The grid of counters, each the bit pattern of a number.
pub struct CountMinSketch {
    pub counters: Vec<u64>,
}

/// Whether `after` is `before` with a count added to a key's counter in every row and
/// no other counter changed.
pub open spec fn added<A: Fn(u64, u64) -> u64>(
    sum: A,
    before: CountMinSketch,
    key: SeriesKey,
    count: u64,
    after: CountMinSketch,
) -> bool {
    &&& after.wf()
    &&& forall|row: int|
        0 <= row < CMS_DEPTH ==> call_ensures(
            sum,
            (before.counters@[#[trigger] cell_index(key, row)], count),
            after.counters@[cell_index(key, row)],
        )
    &&& unmoved(before.counters@, after.counters@, key, CMS_DEPTH as int)
}

proof fn lemma_cell_index(key: SeriesKey, row: int)
    requires
        0 <= row < CMS_DEPTH,
    ensures
        0 <= cell_index(key, row) < CMS_DEPTH * CMS_WIDTH,
        row * CMS_WIDTH <= cell_index(key, row) < (row + 1) * CMS_WIDTH,
{
}

impl CountMinSketch {
    /// The grid is complete.
    pub open spec fn wf(&self) -> bool {
        self.counters@.len() == CMS_DEPTH * CMS_WIDTH
    }

    /// The estimate of a key: the smallest of its counters.
    pub open spec fn estimate(&self, key: SeriesKey) -> u64 {
        smallest(self.counters@, key, CMS_DEPTH as int)
    }

    /// The rank of a key's estimate.
    pub open spec fn rank(&self, key: SeriesKey) -> int {
        number::number_rank(self.estimate(key))
    }

    /// The rank of every key's estimate.
    pub open spec fn ranks(&self) -> spec_fn(SeriesKey) -> int {
        |key: SeriesKey| self.rank(key)
    }

    /// A grid of zeros.
    pub fn new() -> (s: CountMinSketch)
        ensures
            s.wf(),
            forall|i: int| 0 <= i < s.counters@.len() ==> s.counters@[i] == 0,
    {
        let mut counters: Vec<u64> = Vec::new();
        let n: usize = (CMS_DEPTH * CMS_WIDTH) as usize;
        let mut i: usize = 0;
        while i < n
            invariant
                i <= n,
                counters@.len() == i,
                forall|j: int| 0 <= j < i ==> counters@[j] == 0,
            decreases n - i,
        {
            counters.push(0);
            i = i + 1;
        }
        CountMinSketch { counters }
    }

    /// The place of a key's counter in one row.
    fn index_in_row(key: SeriesKey, row: u32) -> (i: usize)
        requires
            row < CMS_DEPTH,
        ensures
            i == cell_index(key, row as int),
            i < CMS_DEPTH * CMS_WIDTH,
    {
        let pos: u32 = key.h1.wrapping_add(row.wrapping_mul(key.h2)) % CMS_WIDTH;
        (row * CMS_WIDTH + pos) as usize
    }

    /// Adds a count to a key's counter in every row; `sum` adds two numbers. No
    /// other counter changes.
    pub fn add<A: Fn(u64, u64) -> u64>(&mut self, key: SeriesKey, count: u64, sum: &A)
        requires
            old(self).wf(),
            forall|a: u64, b: u64| call_requires(*sum, (a, b)),
        ensures
            added(*sum, *old(self), key, count, *final(self)),
    {
        let ghost before = self.counters@;
        let mut row: u32 = 0;
        while row < CMS_DEPTH
            invariant
                row <= CMS_DEPTH,
                self.wf(),
                before.len() == CMS_DEPTH * CMS_WIDTH,
                forall|r: int|
                    0 <= r < row ==> call_ensures(
                        *sum,
                        (before[#[trigger] cell_index(key, r)], count),
                        self.counters@[cell_index(key, r)],
                    ),
                unmoved(before, self.counters@, key, row as int),
                forall|a: u64, b: u64| call_requires(*sum, (a, b)),
            decreases CMS_DEPTH - row,
        {
            let at: usize = Self::index_in_row(key, row);
            proof {
                assert forall|r: int| 0 <= r < row implies #[trigger] cell_index(key, r) != at by {
                    lemma_cell_index(key, r);
                    lemma_cell_index(key, row as int);
                }
            }
            let ghost held = self.counters@;
            let cell: u64 = sum(self.counters[at], count);
            self.counters.set(at, cell);
            proof {
                assert(held[at as int] == before[at as int]);
                assert forall|r: int| 0 <= r < row + 1 implies call_ensures(
                    *sum,
                    (before[#[trigger] cell_index(key, r)], count),
                    self.counters@[cell_index(key, r)],
                ) by {
                    if r < row {
                        lemma_cell_index(key, r);
                        assert(cell_index(key, r) != at);
                    }
                }
                assert forall|i: int|
                    0 <= i < before.len() && (forall|r: int|
                        0 <= r < row + 1 ==> i != cell_index(key, r))
                    implies #[trigger] self.counters@[i] == before[i] by {
                    assert(i != cell_index(key, row as int));
                }
            }
            row = row + 1;
        }
    }

    /// The estimate of a key: the smallest of its counters, from two to the
    /// sixty-fourth down.
    pub fn count(&self, key: SeriesKey) -> (min: u64)
        requires
            self.wf(),
        ensures
            min == self.estimate(key),
    {
        let mut min: u64 = ESTIMATE_START;
        let mut row: u32 = 0;
        while row < CMS_DEPTH
            invariant
                row <= CMS_DEPTH,
                self.wf(),
                min == smallest(self.counters@, key, row as int),
            decreases CMS_DEPTH - row,
        {
            let cell: u64 = self.counters[Self::index_in_row(key, row)];
            if float_lt(cell, min) {
                min = cell;
            }
            row = row + 1;
        }
        min
    }
}

proof fn lemma_smallest(counters: Seq<u64>, key: SeriesKey, rows: int)
    ensures
        number::is_number(smallest(counters, key, rows)),
        number::number_rank(smallest(counters, key, rows)) <= number::number_rank(ESTIMATE_START),
        forall|row: int|
            0 <= row < rows && number::is_number(
                counters[#[trigger] cell_index(key, row)],
            ) ==> number::number_rank(
                smallest(counters, key, rows),
            ) <= number::number_rank(counters[cell_index(key, row)]),
    decreases rows,
{
    if rows > 0 {
        lemma_smallest(counters, key, rows - 1);
    }
}

/// An estimate is a number, and no larger than any of the key's counters that is a
/// number.
pub proof fn law_estimate_is_the_least_counter(sketch: CountMinSketch, key: SeriesKey)
    ensures
        number::is_number(sketch.estimate(key)),
        forall|row: int|
            0 <= row < CMS_DEPTH && number::is_number(sketch.counters@[#[trigger] cell_index(key, row)])
                ==> sketch.rank(key) <= number::number_rank(sketch.counters@[cell_index(key, row)]),
{
    lemma_smallest(sketch.counters@, key, CMS_DEPTH as int);
}

/// Whether `sum` adds integers up to `most` exactly, `of` being the number that an
/// integer is.
pub open spec fn adds_exactly<A: Fn(u64, u64) -> u64>(
    sum: A,
    of: spec_fn(int) -> u64,
    most: int,
) -> bool {
    &&& of(0) == 0
    &&& forall|n: int|
        0 <= n <= most ==> {
            &&& number::is_number(#[trigger] of(n))
            &&& number::number_rank(of(n)) <= number::number_rank(ESTIMATE_START)
        }
    &&& forall|m: int, n: int|
        0 <= m <= n <= most ==> number::number_rank(#[trigger] of(m)) <= number::number_rank(
            #[trigger] of(n),
        )
    &&& forall|m: int, n: int, x: u64|
        0 <= m && 0 <= n && m + n <= most && #[trigger] call_ensures(sum, (of(m), of(n)), x) ==> x
            == of(m + n)
}

/// Counts of keys, in the order they were added.
pub type Adds = Seq<(SeriesKey, int)>;

/// What was added altogether.
pub open spec fn total_count(adds: Adds) -> int
    decreases adds.len(),
{
    if adds.len() == 0 {
        0
    } else {
        total_count(adds.drop_last()) + adds.last().1
    }
}

/// What was added for one key.
pub open spec fn true_count(adds: Adds, key: SeriesKey) -> int
    decreases adds.len(),
{
    if adds.len() == 0 {
        0
    } else {
        true_count(adds.drop_last(), key) + (if adds.last().0 == key {
            adds.last().1
        } else {
            0
        })
    }
}

/// What was added to one counter of a row.
spec fn cell_count(adds: Adds, row: int, cell: int) -> int
    decreases adds.len(),
{
    if adds.len() == 0 {
        0
    } else {
        cell_count(adds.drop_last(), row, cell) + (if cell_index(adds.last().0, row) == cell {
            adds.last().1
        } else {
            0
        })
    }
}

proof fn lemma_cell_count(adds: Adds, key: SeriesKey, row: int, cell: int)
    requires
        forall|i: int| 0 <= i < adds.len() ==> (#[trigger] adds[i]).1 >= 0,
    ensures
        0 <= true_count(adds, key) <= total_count(adds),
        0 <= cell_count(adds, row, cell) <= total_count(adds),
        cell == cell_index(key, row) ==> true_count(adds, key) <= cell_count(adds, row, cell),
    decreases adds.len(),
{
    if adds.len() > 0 {
        assert(adds.last().1 >= 0);
        assert forall|i: int| 0 <= i < adds.drop_last().len() implies (
        #[trigger] adds.drop_last()[i]).1 >= 0 by {
            assert(adds.drop_last()[i] == adds[i]);
        }
        lemma_cell_count(adds.drop_last(), key, row, cell);
    }
}

/// Whether sketches follow one another, each by one addition from the one before, from
/// a grid of zeros on.
pub open spec fn adds_up<A: Fn(u64, u64) -> u64>(
    sum: A,
    of: spec_fn(int) -> u64,
    adds: Adds,
    states: Seq<CountMinSketch>,
) -> bool {
    &&& states.len() == adds.len() + 1
    &&& states[0].wf()
    &&& forall|i: int| 0 <= i < states[0].counters@.len() ==> states[0].counters@[i] == 0
    &&& forall|i: int|
        0 <= i < adds.len() ==> added(
            sum,
            #[trigger] states[i],
            adds[i].0,
            of(adds[i].1),
            states[i + 1],
        )
}

proof fn lemma_cells<A: Fn(u64, u64) -> u64>(
    sum: A,
    of: spec_fn(int) -> u64,
    most: int,
    adds: Adds,
    states: Seq<CountMinSketch>,
    row: int,
    cell: int,
)
    requires
        adds_exactly(sum, of, most),
        adds_up(sum, of, adds, states),
        forall|i: int| 0 <= i < adds.len() ==> (#[trigger] adds[i]).1 >= 0,
        total_count(adds) <= most,
        0 <= row < CMS_DEPTH,
        row * CMS_WIDTH <= cell < (row + 1) * CMS_WIDTH,
    ensures
        states.last().wf(),
        states.last().counters@[cell] == of(cell_count(adds, row, cell)),
    decreases adds.len(),
{
    if adds.len() == 0 {
        assert(states.last() == states[0]);
    } else {
        let n = adds.len() - 1;
        let before = states.drop_last();
        let rest = adds.drop_last();
        assert forall|i: int| 0 <= i < rest.len() implies (#[trigger] rest[i]).1 >= 0 by {
            assert(rest[i] == adds[i]);
        }
        assert(adds[n].1 >= 0);
        assert forall|i: int| 0 <= i < rest.len() implies added(
            sum,
            #[trigger] before[i],
            rest[i].0,
            of(rest[i].1),
            before[i + 1],
        ) by {
            assert(before[i] == states[i]);
            assert(before[i + 1] == states[i + 1]);
        }
        assert(before[0] == states[0]);
        lemma_cells(sum, of, most, rest, before, row, cell);
        lemma_cell_count(rest, adds[n].0, row, cell);
        let key = adds[n].0;
        assert(before.last() == states[n]);
        assert(added(sum, states[n], key, of(adds[n].1), states[n + 1]));
        if cell_index(key, row) == cell {
            assert(call_ensures(
                sum,
                (of(cell_count(rest, row, cell)), of(adds[n].1)),
                states[n + 1].counters@[cell_index(key, row)],
            ));
        } else {
            assert forall|r: int| 0 <= r < CMS_DEPTH implies cell != #[trigger] cell_index(key, r) by {
                lemma_cell_index(key, r);
            }
        }
    }
}

proof fn lemma_smallest_reaches(counters: Seq<u64>, key: SeriesKey, rows: int, low: int)
    requires
        low <= number::number_rank(ESTIMATE_START),
        forall|row: int|
            0 <= row < rows ==> low <= number::number_rank(
                counters[#[trigger] cell_index(key, row)],
            ),
    ensures
        low <= number::number_rank(smallest(counters, key, rows)),
    decreases rows,
{
    if rows > 0 {
        lemma_smallest_reaches(counters, key, rows - 1, low);
        assert(low <= number::number_rank(counters[cell_index(key, rows - 1)]));
    }
}

/// An estimate never falls short of the true count, and never goes past what was added
/// altogether, while the counts are integers that add up exactly.
pub proof fn law_estimates_bound_the_count<A: Fn(u64, u64) -> u64>(
    sum: A,
    of: spec_fn(int) -> u64,
    most: int,
    adds: Adds,
    states: Seq<CountMinSketch>,
    key: SeriesKey,
)
    requires
        adds_exactly(sum, of, most),
        adds_up(sum, of, adds, states),
        forall|i: int| 0 <= i < adds.len() ==> (#[trigger] adds[i]).1 >= 0,
        total_count(adds) <= most,
    ensures
        number::number_rank(of(true_count(adds, key))) <= states.last().rank(key)
            <= number::number_rank(of(total_count(adds))),
{
    let counters = states.last().counters@;
    let low = number::number_rank(of(true_count(adds, key)));
    lemma_cell_count(adds, key, 0, cell_index(key, 0));
    assert(number::is_number(of(true_count(adds, key))));
    assert forall|row: int| 0 <= row < CMS_DEPTH implies {
        &&& number::is_number(counters[#[trigger] cell_index(key, row)])
        &&& low <= number::number_rank(counters[cell_index(key, row)])
        &&& number::number_rank(counters[cell_index(key, row)]) <= number::number_rank(
            of(total_count(adds)),
        )
    } by {
        let cell = cell_index(key, row);
        lemma_cell_index(key, row);
        lemma_cells(sum, of, most, adds, states, row, cell);
        lemma_cell_count(adds, key, row, cell);
        assert(number::is_number(of(cell_count(adds, row, cell))));
    }
    lemma_smallest(counters, key, CMS_DEPTH as int);
    lemma_smallest_reaches(counters, key, CMS_DEPTH as int, low);
    assert(number::is_number(counters[cell_index(key, 0)]));
}

// ---------------------------------------------------------------------
// Retention.
// ---------------------------------------------------------------------

/// A retained label set: its place in the input and its hashes.
pub type Retained = (u32, SeriesKey);

/// Two entries change places.
pub open spec fn swapped(h: Seq<Retained>, i: int, j: int) -> Seq<Retained> {
    h.update(i, h[j]).update(j, h[i])
}

/// An entry rises past its parents while it ranks below them.
pub open spec fn risen(h: Seq<Retained>, j: int, rank: spec_fn(SeriesKey) -> int) -> Seq<Retained>
    decreases j,
{
    if j <= 0 {
        h
    } else {
        let i = (j - 1) / 2;
        if rank(h[j].1) < rank(h[i].1) {
            risen(swapped(h, i, j), i, rank)
        } else {
            h
        }
    }
}

/// The child an entry sinks to: the lower ranked one, the first of two equal ones.
pub open spec fn lower_child(
    h: Seq<Retained>,
    i: int,
    n: int,
    rank: spec_fn(SeriesKey) -> int,
) -> int {
    if 2 * i + 2 < n && rank(h[2 * i + 2].1) < rank(h[2 * i + 1].1) {
        2 * i + 2
    } else {
        2 * i + 1
    }
}

/// An entry sinks past its children, among the first `n`, while one ranks below
/// it.
pub open spec fn sunk(
    h: Seq<Retained>,
    i: int,
    n: int,
    rank: spec_fn(SeriesKey) -> int,
) -> Seq<Retained>
    decreases n - i,
{
    if i < 0 || 2 * i + 1 >= n {
        h
    } else {
        let j = lower_child(h, i, n, rank);
        if rank(h[j].1) < rank(h[i].1) {
            sunk(swapped(h, i, j), j, n, rank)
        } else {
            h
        }
    }
}

/// What is left once the root has been taken out.
pub open spec fn popped(h: Seq<Retained>, rank: spec_fn(SeriesKey) -> int) -> Seq<Retained> {
    let n = h.len() - 1;
    sunk(swapped(h, 0, n), 0, n, rank).drop_last()
}

/// Whether the entry at `k` does not rank below its parent.
pub open spec fn parent_le(h: Seq<Retained>, k: int, rank: spec_fn(SeriesKey) -> int) -> bool {
    rank(h[(k - 1) / 2].1) <= rank(h[k].1)
}

/// Whether no entry ranks below its parent.
pub open spec fn heap_ordered(h: Seq<Retained>, rank: spec_fn(SeriesKey) -> int) -> bool {
    forall|k: int| 0 < k < h.len() ==> #[trigger] parent_le(h, k, rank)
}

/// The identities of the entries.
pub open spec fn ids(h: Seq<Retained>) -> Set<u64> {
    Set::new(|id: u64| exists|k: int| 0 <= k < h.len() && (#[trigger] h[k]).1.id == id)
}

/// Whether no identity occurs twice.
pub open spec fn ids_unique(h: Seq<Retained>) -> bool {
    forall|a: int, b: int|
        0 <= a < b < h.len() ==> (#[trigger] h[a]).1.id != (#[trigger] h[b]).1.id
}

proof fn lemma_swapped(h: Seq<Retained>, i: int, j: int)
    requires
        0 <= i < h.len(),
        0 <= j < h.len(),
    ensures
        swapped(h, i, j).len() == h.len(),
        swapped(h, i, j).to_multiset() == h.to_multiset(),
{
    broadcast use vstd::seq_lib::group_to_multiset_ensures;

    let a = h.update(i, h[j]);
    vstd::seq_lib::to_multiset_update(h, i, h[j]);
    vstd::seq_lib::to_multiset_update(a, j, h[i]);
    assert(h.to_multiset().contains(h[i]));
    assert(a[j] == h[j]);
    assert(swapped(h, i, j).to_multiset() =~= h.to_multiset());
}

proof fn lemma_risen(h: Seq<Retained>, j: int, rank: spec_fn(SeriesKey) -> int)
    requires
        0 <= j < h.len(),
    ensures
        risen(h, j, rank).len() == h.len(),
        risen(h, j, rank).to_multiset() == h.to_multiset(),
    decreases j,
{
    if j > 0 && rank(h[j].1) < rank(h[(j - 1) / 2].1) {
        lemma_swapped(h, (j - 1) / 2, j);
        lemma_risen(swapped(h, (j - 1) / 2, j), (j - 1) / 2, rank);
    }
}

proof fn lemma_sunk(h: Seq<Retained>, i: int, n: int, rank: spec_fn(SeriesKey) -> int)
    requires
        0 <= i,
        n <= h.len(),
    ensures
        sunk(h, i, n, rank).len() == h.len(),
        sunk(h, i, n, rank).to_multiset() == h.to_multiset(),
        forall|k: int| n <= k < h.len() ==> #[trigger] sunk(h, i, n, rank)[k] == h[k],
    decreases n - i,
{
    if 2 * i + 1 < n {
        let j = lower_child(h, i, n, rank);
        if rank(h[j].1) < rank(h[i].1) {
            lemma_swapped(h, i, j);
            lemma_sunk(swapped(h, i, j), j, n, rank);
        }
    }
}

proof fn lemma_popped(h: Seq<Retained>, rank: spec_fn(SeriesKey) -> int)
    requires
        h.len() > 0,
    ensures
        popped(h, rank).len() == h.len() - 1,
        popped(h, rank).to_multiset() == h.to_multiset().remove(h[0]),
{
    broadcast use vstd::seq_lib::group_to_multiset_ensures;

    let n = h.len() - 1;
    lemma_swapped(h, 0, n);
    let s = sunk(swapped(h, 0, n), 0, n, rank);
    lemma_sunk(swapped(h, 0, n), 0, n, rank);
    assert(s.last() == h[0]);
    assert(s.drop_last().push(s.last()) =~= s);
    assert(s.drop_last().push(s.last()).to_multiset() =~= s.drop_last().to_multiset().insert(
        s.last(),
    ));
    assert(popped(h, rank).to_multiset() =~= h.to_multiset().remove(h[0]));
}

/// The same entries have the same identities.
proof fn lemma_ids_permute(a: Seq<Retained>, b: Seq<Retained>)
    requires
        a.to_multiset() == b.to_multiset(),
    ensures
        ids(a) == ids(b),
{
    broadcast use vstd::seq_lib::group_to_multiset_ensures;

    assert forall|id: u64| ids(a).contains(id) == ids(b).contains(id) by {
        if ids(a).contains(id) {
            let k = choose|k: int| 0 <= k < a.len() && (#[trigger] a[k]).1.id == id;
            assert(b.to_multiset().contains(a[k]));
            let m = choose|m: int| 0 <= m < b.len() && b[m] == a[k];
            assert(b[m].1.id == id);
        }
        if ids(b).contains(id) {
            let k = choose|k: int| 0 <= k < b.len() && (#[trigger] b[k]).1.id == id;
            assert(a.to_multiset().contains(b[k]));
            let m = choose|m: int| 0 <= m < a.len() && a[m] == b[k];
            assert(a[m].1.id == id);
        }
    }
    assert(ids(a) =~= ids(b));
}

/// Adding an entry of a new identity, or taking one out, keeps identities unique.
proof fn lemma_unique_permute(a: Seq<Retained>, b: Seq<Retained>)
    requires
        ids_unique(a),
        a.to_multiset() == b.to_multiset(),
    ensures
        ids_unique(b),
{
    broadcast use vstd::seq_lib::group_to_multiset_ensures;

    assert forall|i: int, j: int| 0 <= i < j < b.len() implies (#[trigger] b[i]).1.id != (
    #[trigger] b[j]).1.id by {
        if b[i].1.id == b[j].1.id {
            assert(a.to_multiset().contains(b[i]) && a.to_multiset().contains(b[j]));
            let x = choose|x: int| 0 <= x < a.len() && a[x] == b[i];
            let y = choose|y: int| 0 <= y < a.len() && a[y] == b[j];
            assert(x == y) by {
                if x < y {
                    assert(a[x].1.id != a[y].1.id);
                } else if y < x {
                    assert(a[y].1.id != a[x].1.id);
                }
            }
            assert(b[i] == b[j]);
            let without = b.remove(j);
            assert(b.to_multiset() =~= without.to_multiset().insert(b[j])) by {
                vstd::seq_lib::to_multiset_remove(b, j);
            }
            assert(without[i] == b[i]);
            assert(without.to_multiset().contains(b[i]));
            assert(b.to_multiset().count(b[i]) >= 2);
            assert(a.to_multiset().count(a[x]) >= 2);
            let rest = a.remove(x);
            assert(a.to_multiset() =~= rest.to_multiset().insert(a[x])) by {
                vstd::seq_lib::to_multiset_remove(a, x);
            }
            assert(rest.to_multiset().contains(a[x]));
            let z = choose|z: int| 0 <= z < rest.len() && rest[z] == a[x];
            let w = if z < x {
                z
            } else {
                z + 1
            };
            assert(a[w] == a[x] && w != x);
            assert(false) by {
                if w < x {
                    assert(a[w].1.id != a[x].1.id);
                } else {
                    assert(a[x].1.id != a[w].1.id);
                }
            }
        }
    }
}

/// Which label sets are retained.
pub struct Retention {
    heap: Vec<Retained>,
    observed: HashSet<u64>,
}

/// The heap after a label set has come in, before one leaves. `same` says whether
/// it equals the root's label set.
pub open spec fn taken(
    h: Seq<Retained>,
    entry: Retained,
    same: bool,
    rank: spec_fn(SeriesKey) -> int,
) -> Seq<Retained> {
    if !ids(h).contains(entry.1.id) {
        risen(h.push(entry), h.len() as int, rank)
    } else if same {
        sunk(h, 0, h.len() as int, rank)
    } else {
        h
    }
}

/// The heap after one has left, where there were too many.
pub open spec fn evicted(h: Seq<Retained>, rank: spec_fn(SeriesKey) -> int) -> Seq<Retained> {
    if h.len() > CMS_MAX_LABELS {
        popped(h, rank)
    } else {
        h
    }
}

impl Retention {
    /// The retained entries, as the heap holds them.
    pub closed spec fn entries(&self) -> Seq<Retained> {
        self.heap@
    }

    /// No identity is retained twice, what is observed is what is retained, and
    /// there are not too many.
    pub closed spec fn wf(&self) -> bool {
        &&& ids_unique(self.heap@)
        &&& self.observed@ == ids(self.heap@)
        &&& self.heap@.len() <= CMS_MAX_LABELS
    }

    /// Nothing is retained yet.
    pub fn new() -> (r: Retention)
        ensures
            r.wf(),
            r.entries() == Seq::<Retained>::empty(),
    {
        broadcast use vstd::std_specs::hash::group_hash_axioms;

        let r = Retention {
            heap: Vec::with_capacity(CMS_MAX_LABELS + 1),
            observed: HashSet::with_capacity(CMS_MAX_LABELS + 1),
        };
        proof {
            assert(ids(r.heap@) =~= Set::<u64>::empty());
        }
        r
    }

    /// A label set comes in, once the sketch has counted it. A new identity is
    /// retained. A retained one counts as the root where `same_labels_as` says
    /// that its labels are those of the entry there. Where there are then too
    /// many, the root leaves.
    pub fn observe<S: Fn(u32) -> bool>(
        &mut self,
        idx: u32,
        key: SeriesKey,
        sketch: &CountMinSketch,
        same_labels_as: &S,
    )
        requires
            old(self).wf(),
            sketch.wf(),
            forall|root: u32| call_requires(*same_labels_as, (root,)),
        ensures
            final(self).wf(),
            ({
                let before = old(self).entries();
                let rank = sketch.ranks();
                let kept = evicted(taken(before, (idx, key), false, rank), rank);
                let sunken = evicted(taken(before, (idx, key), true, rank), rank);
                if !ids(before).contains(key.id) {
                    final(self).entries() == kept
                } else {
                    ||| call_ensures(*same_labels_as, (before[0].0,), false)
                        && final(self).entries() == kept
                    ||| call_ensures(*same_labels_as, (before[0].0,), true)
                        && final(self).entries() == sunken
                }
            }),
    {
        broadcast use vstd::std_specs::hash::group_hash_axioms;

        let ghost before = self.heap@;
        let ghost rank = sketch.ranks();
        let ghost mut same = false;
        if !self.observed.contains(&key.id) {
            self.heap.push((idx, key));
            let last: usize = self.heap.len() - 1;
            let ghost pushed = self.heap@;
            Self::sift_up(&mut self.heap, last, sketch);
            self.observed.insert(key.id);
            proof {
                lemma_risen(pushed, last as int, rank);
                assert(ids(pushed) =~= ids(before).insert(key.id)) by {
                    assert(pushed[last as int].1.id == key.id);
                    assert forall|id: u64| ids(before).contains(id) implies ids(pushed).contains(
                        id,
                    ) by {
                        let k = choose|k: int|
                            0 <= k < before.len() && (#[trigger] before[k]).1.id == id;
                        assert(pushed[k] == before[k]);
                    }
                }
                assert(ids_unique(pushed)) by {
                    assert forall|a: int, b: int| 0 <= a < b < pushed.len() implies (
                    #[trigger] pushed[a]).1.id != (#[trigger] pushed[b]).1.id by {
                        assert(pushed[a] == before[a]);
                        if b < last {
                            assert(pushed[b] == before[b]);
                        }
                    }
                }
                lemma_ids_permute(pushed, self.heap@);
                lemma_unique_permute(pushed, self.heap@);
            }
        } else {
            proof {
                let k = choose|k: int|
                    0 <= k < before.len() && (#[trigger] before[k]).1.id == key.id;
                assert(before.len() > 0);
            }
            let equal: bool = same_labels_as(self.heap[0].0);
            proof {
                same = equal;
            }
            if equal {
                let n: usize = self.heap.len();
                Self::sift_down_bounded(&mut self.heap, 0, n, sketch);
                proof {
                    lemma_sunk(before, 0, n as int, rank);
                    lemma_ids_permute(before, self.heap@);
                    lemma_unique_permute(before, self.heap@);
                }
            }
        }
        proof {
            assert(self.heap@ == taken(before, (idx, key), same, rank));
        }
        if self.heap.len() > CMS_MAX_LABELS {
            let ghost full = self.heap@;
            let evicted = Self::pop_min(&mut self.heap, sketch);
            self.observed.remove(&evicted.1.id);
            proof {
                lemma_popped(full, rank);
                let rest = full.drop_first();
                assert(rest.to_multiset() =~= full.to_multiset().remove(full[0])) by {
                    vstd::seq_lib::to_multiset_remove(full, 0);
                    assert(full.remove(0) =~= rest);
                }
                assert(ids_unique(rest)) by {
                    assert forall|a: int, b: int| 0 <= a < b < rest.len() implies (
                    #[trigger] rest[a]).1.id != (#[trigger] rest[b]).1.id by {
                        assert(full[a + 1].1.id != full[b + 1].1.id);
                    }
                }
                assert(ids(rest) =~= ids(full).remove(evicted.1.id)) by {
                    assert forall|id: u64| ids(full).remove(evicted.1.id).contains(id) implies ids(
                        rest,
                    ).contains(id) by {
                        let k = choose|k: int|
                            0 <= k < full.len() && (#[trigger] full[k]).1.id == id;
                        assert(rest[k - 1] == full[k]);
                    }
                    assert forall|id: u64| ids(rest).contains(id) implies ids(full).remove(
                        evicted.1.id,
                    ).contains(id) by {
                        let k = choose|k: int|
                            0 <= k < rest.len() && (#[trigger] rest[k]).1.id == id;
                        assert(full[k + 1].1.id == id);
                        assert(full[0].1.id != full[k + 1].1.id);
                    }
                }
                lemma_ids_permute(rest, self.heap@);
                lemma_unique_permute(rest, self.heap@);
            }
        }
    }

    /// The retained entries, as the heap holds them.
    pub fn into_entries(self) -> (entries: Vec<Retained>)
        ensures
            entries@ == self.entries(),
    {
        self.heap
    }

    /// How many are retained.
    pub fn len(&self) -> (n: usize)
        ensures
            n == self.entries().len(),
    {
        self.heap.len()
    }

    /// Whether one entry's current estimate is less than another's.
    fn less(heap: &Vec<Retained>, a: usize, b: usize, sketch: &CountMinSketch) -> (r: bool)
        requires
            a < heap@.len(),
            b < heap@.len(),
            sketch.wf(),
        ensures
            r == ((sketch.ranks())(heap@[a as int].1) < (sketch.ranks())(heap@[b as int].1)),
    {
        proof {
            lemma_smallest(sketch.counters@, heap@[a as int].1, CMS_DEPTH as int);
            lemma_smallest(sketch.counters@, heap@[b as int].1, CMS_DEPTH as int);
        }
        float_lt(sketch.count(heap[a].1), sketch.count(heap[b].1))
    }

    /// Two entries change places.
    fn swap(heap: &mut Vec<Retained>, i: usize, j: usize)
        requires
            i < old(heap)@.len(),
            j < old(heap)@.len(),
        ensures
            final(heap)@ == swapped(old(heap)@, i as int, j as int),
    {
        let at_i: Retained = heap[i];
        let at_j: Retained = heap[j];
        heap.set(i, at_j);
        heap.set(j, at_i);
    }

    /// An entry rises past its parents while its estimate is less than theirs.
    fn sift_up(heap: &mut Vec<Retained>, from: usize, sketch: &CountMinSketch)
        requires
            from < old(heap)@.len(),
            sketch.wf(),
        ensures
            final(heap)@ == risen(old(heap)@, from as int, sketch.ranks()),
    {
        let ghost goal = risen(heap@, from as int, sketch.ranks());
        let mut j: usize = from;
        while j > 0
            invariant_except_break
                risen(heap@, j as int, sketch.ranks()) == goal,
            invariant
                j < heap@.len(),
                sketch.wf(),
            ensures
                heap@ == goal,
            decreases j,
        {
            let i: usize = (j - 1) / 2;
            if !Self::less(heap, j, i, sketch) {
                break;
            }
            Self::swap(heap, i, j);
            j = i;
        }
    }

    /// An entry sinks past its children, among the first `n`, while the estimate
    /// of one is less than its own.
    fn sift_down_bounded(heap: &mut Vec<Retained>, from: usize, n: usize, sketch: &CountMinSketch)
        requires
            from <= n <= old(heap)@.len(),
            n <= CMS_MAX_LABELS,
            sketch.wf(),
        ensures
            final(heap)@ == sunk(old(heap)@, from as int, n as int, sketch.ranks()),
    {
        let ghost rank = sketch.ranks();
        let ghost goal = sunk(heap@, from as int, n as int, rank);
        let ghost len = heap@.len();
        let mut i: usize = from;
        while 2 * i + 1 < n
            invariant_except_break
                sunk(heap@, i as int, n as int, rank) == goal,
            invariant
                i <= n <= heap@.len(),
                n <= CMS_MAX_LABELS,
                rank == sketch.ranks(),
                sketch.wf(),
            ensures
                heap@ == goal,
            decreases n - i,
        {
            let j1: usize = 2 * i + 1;
            let mut j: usize = j1;
            let j2: usize = j1 + 1;
            if j2 < n && Self::less(heap, j2, j1, sketch) {
                j = j2;
            }
            proof {
                assert(j == lower_child(heap@, i as int, n as int, rank));
            }
            if !Self::less(heap, j, i, sketch) {
                break;
            }
            Self::swap(heap, i, j);
            i = j;
        }
    }

    /// Takes the root out.
    fn pop_min(heap: &mut Vec<Retained>, sketch: &CountMinSketch) -> (root: Retained)
        requires
            0 < old(heap)@.len() <= CMS_MAX_LABELS + 1,
            sketch.wf(),
        ensures
            root == old(heap)@[0],
            final(heap)@ == popped(old(heap)@, sketch.ranks()),
    {
        let ghost before = heap@;
        let n: usize = heap.len() - 1;
        Self::swap(heap, 0, n);
        let ghost turned = heap@;
        Self::sift_down_bounded(heap, 0, n, sketch);
        proof {
            lemma_sunk(turned, 0, n as int, sketch.ranks());
        }
        let root: Retained = heap[n];
        heap.truncate(n);
        proof {
            assert(heap@ =~= popped(before, sketch.ranks()));
        }
        root
    }
}

/// Whether the first `n` are heap ordered.
spec fn ordered_to(h: Seq<Retained>, n: int, rank: spec_fn(SeriesKey) -> int) -> bool {
    forall|k: int| 0 < k < n ==> #[trigger] parent_le(h, k, rank)
}

/// Whether the entry at `c` does not rank below the parent of its parent.
spec fn grandparent_le(h: Seq<Retained>, c: int, rank: spec_fn(SeriesKey) -> int) -> bool {
    rank(h[((c - 1) / 2 - 1) / 2].1) <= rank(h[c].1)
}

/// Whether only the entry at `j` may rank below its parent.
spec fn ordered_but_up(h: Seq<Retained>, j: int, rank: spec_fn(SeriesKey) -> int) -> bool {
    &&& forall|k: int| 0 < k < h.len() && k != j ==> #[trigger] parent_le(h, k, rank)
    &&& forall|c: int|
        0 < j && 0 < c < h.len() && (c - 1) / 2 == j ==> #[trigger] grandparent_le(h, c, rank)
}

/// Whether, of the first `n`, only children of the entry at `i` may rank below
/// it.
spec fn ordered_but_down(
    h: Seq<Retained>,
    i: int,
    n: int,
    rank: spec_fn(SeriesKey) -> int,
) -> bool {
    &&& forall|k: int| 0 < k < n && (k - 1) / 2 != i ==> #[trigger] parent_le(h, k, rank)
    &&& forall|c: int|
        0 < i && 0 < c < n && (c - 1) / 2 == i ==> #[trigger] grandparent_le(h, c, rank)
}

proof fn lemma_risen_ordered(h: Seq<Retained>, j: int, rank: spec_fn(SeriesKey) -> int)
    requires
        0 <= j < h.len(),
        ordered_but_up(h, j, rank),
    ensures
        heap_ordered(risen(h, j, rank), rank),
    decreases j,
{
    if j > 0 && rank(h[j].1) < rank(h[(j - 1) / 2].1) {
        let i = (j - 1) / 2;
        let t = swapped(h, i, j);
        assert forall|k: int| 0 < k < t.len() && k != i implies #[trigger] parent_le(
            t,
            k,
            rank,
        ) by {
            if k != j {
                assert(parent_le(h, k, rank));
                if (k - 1) / 2 == j {
                    assert(grandparent_le(h, k, rank));
                }
            }
        }
        assert forall|c: int|
            0 < i && 0 < c < t.len() && (c - 1) / 2 == i implies #[trigger] grandparent_le(
            t,
            c,
            rank,
        ) by {
            assert(parent_le(h, i, rank));
            if c != j {
                assert(parent_le(h, c, rank));
            }
        }
        lemma_risen_ordered(t, i, rank);
    } else {
        assert forall|k: int| 0 < k < h.len() implies #[trigger] parent_le(h, k, rank) by {}
    }
}

proof fn lemma_sunk_ordered(h: Seq<Retained>, i: int, n: int, rank: spec_fn(SeriesKey) -> int)
    requires
        0 <= i,
        0 <= n <= h.len(),
        ordered_but_down(h, i, n, rank),
    ensures
        ordered_to(sunk(h, i, n, rank), n, rank),
    decreases n - i,
{
    if 2 * i + 1 < n {
        let j = lower_child(h, i, n, rank);
        if rank(h[j].1) < rank(h[i].1) {
            let t = swapped(h, i, j);
            assert forall|k: int| 0 < k < n && (k - 1) / 2 != j implies #[trigger] parent_le(
                t,
                k,
                rank,
            ) by {
                if (k - 1) / 2 != i {
                    assert(parent_le(h, k, rank));
                } else {
                    assert(k == 2 * i + 1 || k == 2 * i + 2);
                }
                if k == i {
                    assert(grandparent_le(h, j, rank));
                }
            }
            assert forall|c: int|
                0 < j && 0 < c < n && (c - 1) / 2 == j implies #[trigger] grandparent_le(
                t,
                c,
                rank,
            ) by {
                assert(parent_le(h, c, rank));
            }
            lemma_sunk_ordered(t, j, n, rank);
        } else {
            assert forall|k: int| 0 < k < n implies #[trigger] parent_le(h, k, rank) by {
                if (k - 1) / 2 == i {
                    assert(k == 2 * i + 1 || k == 2 * i + 2);
                }
            }
        }
    } else {
        assert forall|k: int| 0 < k < n implies #[trigger] parent_le(h, k, rank) by {}
    }
}

proof fn lemma_root_is_least(h: Seq<Retained>, k: int, rank: spec_fn(SeriesKey) -> int)
    requires
        heap_ordered(h, rank),
        0 <= k < h.len(),
    ensures
        rank(h[0].1) <= rank(h[k].1),
    decreases k,
{
    if k > 0 {
        lemma_root_is_least(h, (k - 1) / 2, rank);
        assert(parent_le(h, k, rank));
    }
}

proof fn lemma_popped_ordered(h: Seq<Retained>, rank: spec_fn(SeriesKey) -> int)
    requires
        h.len() > 0,
        heap_ordered(h, rank),
    ensures
        heap_ordered(popped(h, rank), rank),
{
    let n = h.len() - 1;
    let turned = swapped(h, 0, n);
    assert forall|k: int| 0 < k < n && (k - 1) / 2 != 0 implies #[trigger] parent_le(
        turned,
        k,
        rank,
    ) by {
        assert(parent_le(h, k, rank));
    }
    lemma_sunk_ordered(turned, 0, n, rank);
    lemma_sunk(turned, 0, n, rank);
    let after = popped(h, rank);
    assert forall|k: int| 0 < k < after.len() implies #[trigger] parent_le(after, k, rank) by {
        assert(parent_le(sunk(turned, 0, n, rank), k, rank));
    }
}

/// What is retained never exceeds its limit, and never holds an identity twice.
pub proof fn law_retention_is_bounded_and_distinct(r: Retention)
    requires
        r.wf(),
    ensures
        r.entries().len() <= CMS_MAX_LABELS,
        ids_unique(r.entries()),
{
}

/// Below the limit nothing leaves: a new label set joins those that were retained.
pub proof fn law_below_the_limit_everything_stays(
    h: Seq<Retained>,
    entry: Retained,
    same: bool,
    rank: spec_fn(SeriesKey) -> int,
)
    requires
        h.len() < CMS_MAX_LABELS,
        !ids(h).contains(entry.1.id),
    ensures
        evicted(taken(h, entry, same, rank), rank).to_multiset() == h.to_multiset().insert(entry),
{
    broadcast use vstd::seq_lib::group_to_multiset_ensures;

    lemma_risen(h.push(entry), h.len() as int, rank);
}

/// At the limit, while the heap is in order, a new label set joins and the one of
/// the least current estimate leaves. What stays is in order.
pub proof fn law_least_estimate_leaves(
    h: Seq<Retained>,
    entry: Retained,
    same: bool,
    rank: spec_fn(SeriesKey) -> int,
)
    requires
        h.len() == CMS_MAX_LABELS,
        !ids(h).contains(entry.1.id),
        heap_ordered(h, rank),
    ensures
        ({
            let full = h.to_multiset().insert(entry);
            let after = evicted(taken(h, entry, same, rank), rank);
            exists|least: Retained|
                {
                    &&& #[trigger] full.contains(least)
                    &&& forall|e: Retained| full.contains(e) ==> rank(least.1) <= rank(e.1)
                    &&& after.to_multiset() == full.remove(least)
                    &&& heap_ordered(after, rank)
                }
        }),
{
    broadcast use vstd::seq_lib::group_to_multiset_ensures;

    let pushed = h.push(entry);
    let full = h.to_multiset().insert(entry);
    lemma_risen(pushed, h.len() as int, rank);
    assert forall|k: int| 0 < k < pushed.len() && k != h.len() implies #[trigger] parent_le(
        pushed,
        k,
        rank,
    ) by {
        assert(parent_le(h, k, rank));
    }
    lemma_risen_ordered(pushed, h.len() as int, rank);
    let up = taken(h, entry, same, rank);
    assert(up.to_multiset() == full);
    let least = up[0];
    assert forall|e: Retained| full.contains(e) implies rank(least.1) <= rank(e.1) by {
        let k = choose|k: int| 0 <= k < up.len() && up[k] == e;
        lemma_root_is_least(up, k, rank);
    }
    lemma_popped(up, rank);
    lemma_popped_ordered(up, rank);
    assert(full.contains(least));
}

/// A repeated label set that stands at the root leaves the same entries, back in
/// order where only the root was out of it.
pub proof fn law_repeated_root_restores_order(
    h: Seq<Retained>,
    entry: Retained,
    rank: spec_fn(SeriesKey) -> int,
)
    requires
        h.len() <= CMS_MAX_LABELS,
        ids(h).contains(entry.1.id),
        forall|k: int| 2 < k < h.len() ==> #[trigger] parent_le(h, k, rank),
    ensures
        ({
            let after = evicted(taken(h, entry, true, rank), rank);
            &&& after.to_multiset() == h.to_multiset()
            &&& heap_ordered(after, rank)
        }),
{
    lemma_sunk(h, 0, h.len() as int, rank);
    lemma_sunk_ordered(h, 0, h.len() as int, rank);
}

} // verus!
