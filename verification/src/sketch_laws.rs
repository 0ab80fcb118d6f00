//! What the hashes and the counters of the frequency sketch satisfy.
use vstd::prelude::*;
use vstd::utf8::encode_utf8;
use crate::cms::{self, CountMinSketch, Retained, SeriesKey};
use crate::fan_out;
use crate::text::PairView;

verus! {

/// The bytes of a label set go pair by pair: a pair is set off from those before it, and its
/// value from its name, by a byte that no text holds.
pub proof fn law_hashed_bytes_go_pair_by_pair(labels: Seq<PairView>, p: PairView)
    ensures
        cms::stable_bytes(Seq::empty()) == seq![0xFEu8],
        ({
            let before = cms::stable_bytes(labels);
            let one = encode_utf8(p.0) + seq![0xFFu8] + encode_utf8(p.1);
            &&& labels.len() == 0 ==> cms::stable_bytes(labels.push(p)) == before + one
            &&& labels.len() > 0 ==> cms::stable_bytes(labels.push(p)) == before + seq![0xFFu8]
                + one
        }),
{
    let all = labels.push(p);
    assert(all.drop_last() =~= labels);
    let before = cms::stable_bytes(labels);
    let one = encode_utf8(p.0) + seq![0xFFu8] + encode_utf8(p.1);
    assert(cms::stable_bytes(Seq::empty()) =~= seq![0xFEu8]);
    if labels.len() == 0 {
        assert(cms::stable_bytes(all) =~= before + one);
    } else {
        assert(cms::stable_bytes(all) =~= before + seq![0xFFu8] + one);
    }
}

/// One more byte is mixed into the first cell hash and multiplied by the prime, within
/// thirty-two bits; no bytes hash to the basis.
pub proof fn law_cell_hash_takes_byte_by_byte(bytes: Seq<u8>, b: u8)
    ensures
        cms::fnv1a(Seq::empty()) == 2_166_136_261u32,
        cms::fnv1a(bytes.push(b)) == ((cms::fnv1a(bytes) ^ (b as u32)) * 16_777_619)
            % 0x1_0000_0000,
{
    assert(bytes.push(b).drop_last() =~= bytes);
}

/// One more byte is mixed into a fingerprint and multiplied by the prime, within sixty-four
/// bits; no bytes have the basis.
pub proof fn law_fingerprint_takes_byte_by_byte(bytes: Seq<u8>, b: u8)
    ensures
        fan_out::fnv64(Seq::empty()) == 14_695_981_039_346_656_037u64,
        fan_out::fnv64(bytes.push(b)) == ((fan_out::fnv64(bytes) ^ (b as u64)) * 1_099_511_628_211)
            % 0x1_0000_0000_0000_0000,
{
    assert(bytes.push(b).drop_last() =~= bytes);
}

/// The counter of a key moves on by its second hash from row to row, within thirty-two
/// bits, and is one of the row's; the counters of different rows are different counters.
pub proof fn law_counters_go_by_both_hashes(key: SeriesKey, row: u32, other: u32)
    requires
        row < 7,
        other < 7,
    ensures
        cms::position(key, row) == ((key.h1 + (row * key.h2) % 0x1_0000_0000) % 0x1_0000_0000)
            % 27_183,
        0 <= cms::position(key, row) < 27_183,
        cms::cell_index(key, row as int) == row * 27_183 + cms::position(key, row),
        0 <= cms::cell_index(key, row as int) < 7 * 27_183,
        row != other ==> cms::cell_index(key, row as int) != cms::cell_index(key, other as int),
{
    assert(row * 27_183 <= 6 * 27_183);
}

proof fn lemma_smallest_is_one(counters: Seq<u64>, key: SeriesKey, rows: int)
    ensures
        cms::smallest(counters, key, rows) == 0x43F0_0000_0000_0000u64 || exists|row: int|
            0 <= row < rows && cms::smallest(counters, key, rows) == counters[
            #[trigger] cms::cell_index(key, row)],
    decreases rows,
{
    if rows > 0 {
        lemma_smallest_is_one(counters, key, rows - 1);
        let before = cms::smallest(counters, key, rows - 1);
        if cms::smallest(counters, key, rows) == before {
            if before != 0x43F0_0000_0000_0000u64 {
                let row = choose|row: int|
                    0 <= row < rows - 1 && before == counters[
                    #[trigger] cms::cell_index(key, row)];
                assert(0 <= row < rows && before == counters[cms::cell_index(key, row)]);
            }
        } else {
            assert(cms::smallest(counters, key, rows) == counters[
            cms::cell_index(key, rows - 1)]);
        }
    }
}

/// An estimate is one of the key's counters, unless all of them are past what an estimate
/// starts from.
pub proof fn law_estimate_is_a_counter(sketch: CountMinSketch, key: SeriesKey)
    ensures
        sketch.estimate(key) == 0x43F0_0000_0000_0000u64 || exists|row: int|
            0 <= row < 7 && sketch.estimate(key) == sketch.counters@[
            #[trigger] cms::cell_index(key, row)],
{
    lemma_smallest_is_one(sketch.counters@, key, 7);
}

/// A label set that is retained already, and does not stand at the root, changes nothing.
pub proof fn law_repeated_sets_change_nothing(
    h: Seq<Retained>,
    entry: Retained,
    rank: spec_fn(SeriesKey) -> int,
    k: int,
)
    requires
        h.len() <= 10_000,
        0 <= k < h.len(),
        h[k].1.id == entry.1.id,
    ensures
        cms::evicted(cms::taken(h, entry, false, rank), rank) == h,
{
    assert(cms::ids(h).contains(entry.1.id)) by {
        assert(h[k].1.id == entry.1.id);
    }
}

/// Entries of equal estimates stay where they are: one rises only past a parent it ranks
/// below, sinks only past a child that ranks below it, and of two such children goes past
/// the lower ranked, the first of two equal ones.
pub proof fn law_equal_estimates_stay_in_place(
    h: Seq<Retained>,
    j: int,
    n: int,
    rank: spec_fn(SeriesKey) -> int,
)
    requires
        0 <= j < n <= h.len(),
    ensures
        j > 0 && rank(h[j].1) >= rank(h[(j - 1) / 2].1) ==> cms::risen(h, j, rank) == h,
        (2 * j + 1 >= n || rank(h[2 * j + 1].1) >= rank(h[j].1)) && (2 * j + 2 >= n || rank(
            h[2 * j + 2].1,
        ) >= rank(h[j].1)) ==> cms::sunk(h, j, n, rank) == h,
        2 * j + 2 < n && rank(h[2 * j + 1].1) <= rank(h[2 * j + 2].1) ==> cms::lower_child(
            h,
            j,
            n,
            rank,
        ) == 2 * j + 1,
        2 * j + 2 < n && rank(h[2 * j + 2].1) < rank(h[2 * j + 1].1) ==> cms::lower_child(
            h,
            j,
            n,
            rank,
        ) == 2 * j + 2,
        2 * j + 2 >= n ==> cms::lower_child(h, j, n, rank) == 2 * j + 1,
{
}

} // verus!
