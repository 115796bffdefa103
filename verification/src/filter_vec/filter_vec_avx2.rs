//! The kernel in blocks of eight lanes, the width of a 256-bit register of
//! 32-bit integers: each block yields a mask of the lanes to keep, the kept
//! lanes are gathered to the front of the block, and the block is stored at a
//! cursor that moves on by the number of kept lanes only.

use vstd::prelude::*;
use crate::charset::{lemma_intersects_symmetric, LowerAsciiCharset};
use crate::filter_vec::{filter_spec, keeps, lemma_filter_push};

verus! {

pub const NUM_LANES: usize = 8;

/// One block of candidates.
pub type Lanes = [LowerAsciiCharset; 8];

/// Whether lane `i` is set in a keep mask.
pub open spec fn lane_bit(mask: u8, i: u8) -> bool {
    (mask >> i) & 1 == 1
}

/// The lanes below `k` that `mask` keeps, in ascending order.
pub open spec fn kept_lanes(mask: u8, k: nat) -> Seq<int>
    decreases k,
{
    if k == 0 {
        Seq::empty()
    } else if lane_bit(mask, (k - 1) as u8) {
        kept_lanes(mask, (k - 1) as nat).push(k - 1)
    } else {
        kept_lanes(mask, (k - 1) as nat)
    }
}

/// `mask` has exactly the bits of the lanes that the kernel keeps.
pub open spec fn is_keep_mask(
    mask: u8,
    lanes: Seq<LowerAsciiCharset>,
    charset: LowerAsciiCharset,
    last_added: LowerAsciiCharset,
) -> bool {
    forall|i: u8| i < 8 ==> #[trigger] lane_bit(mask, i) == keeps(lanes[i as int], charset, last_added)
}

proof fn lemma_mask_set_lane(mask: u8, i: u8, j: u8)
    by (bit_vector)
    requires
        i < 8,
        j < 8,
    ensures
        lane_bit(mask | (1u8 << i), j) == (lane_bit(mask, j) || i == j),
{
}

proof fn lemma_mask_zero(j: u8)
    by (bit_vector)
    requires
        j < 8,
    ensures
        !lane_bit(0u8, j),
{
}

/// The kept lanes are lanes, in ascending order, and at most `k` of them.
pub proof fn lemma_kept_lanes_bounds(mask: u8, k: nat)
    requires
        k <= 8,
    ensures
        kept_lanes(mask, k).len() <= k,
        forall|j: int| 0 <= j < kept_lanes(mask, k).len() ==> 0 <= #[trigger] kept_lanes(mask, k)[j] < k,
    decreases k,
{
    if k > 0 {
        lemma_kept_lanes_bounds(mask, (k - 1) as nat);
    }
}

/// Gathering the kept lanes of a block is filtering the block.
pub proof fn lemma_kept_lanes_filter(
    mask: u8,
    lanes: Seq<LowerAsciiCharset>,
    charset: LowerAsciiCharset,
    last_added: LowerAsciiCharset,
    k: nat,
)
    requires
        lanes.len() == 8,
        k <= 8,
        is_keep_mask(mask, lanes, charset, last_added),
    ensures
        filter_spec(lanes.take(k as int), charset, last_added) == kept_lanes(mask, k).map_values(
            |i: int| lanes[i],
        ),
    decreases k,
{
    let pick = |i: int| lanes[i];
    if k == 0 {
        reveal(Seq::filter);
        assert(lanes.take(0) =~= Seq::empty());
        assert(kept_lanes(mask, 0).map_values(pick) =~= Seq::empty());
    } else {
        let j = (k - 1) as nat;
        lemma_kept_lanes_filter(mask, lanes, charset, last_added, j);
        assert(lanes.take(k as int) =~= lanes.take(j as int).push(lanes[j as int]));
        lemma_filter_push(lanes.take(j as int), lanes[j as int], charset, last_added);
        assert(lane_bit(mask, j as u8) == keeps(lanes[j as u8 as int], charset, last_added));
        if lane_bit(mask, j as u8) {
            assert(kept_lanes(mask, k).map_values(pick) =~= kept_lanes(mask, j).map_values(
                pick,
            ).push(lanes[j as int]));
        }
    }
}

/// Reads the block that starts at `at`.
fn load_lanes(input: &[LowerAsciiCharset], at: usize) -> (lanes: Lanes)
    requires
        at + 8 <= input@.len(),
    ensures
        lanes@ == input@.subrange(at as int, at + 8),
{
    let lanes: Lanes = [
        input[at],
        input[at + 1],
        input[at + 2],
        input[at + 3],
        input[at + 4],
        input[at + 5],
        input[at + 6],
        input[at + 7],
    ];
    assert(lanes@ =~= input@.subrange(at as int, at + 8));
    lanes
}

/// Writes all eight lanes of a block at `at`.
fn store_lanes(output: &mut Vec<LowerAsciiCharset>, at: usize, lanes: &Lanes)
    requires
        at + 8 <= old(output)@.len(),
    ensures
        final(output)@ == old(output)@.take(at as int) + lanes@ + old(output)@.skip(at + 8),
{
    let mut i: usize = 0;
    while i < 8
        invariant
            i <= 8,
            at + 8 <= output.len(),
            output@.len() == old(output)@.len(),
            forall|j: int| 0 <= j < output@.len() ==> output@[j] == if at <= j < at + i {
                lanes@[j - at]
            } else {
                old(output)@[j]
            },
        decreases 8 - i,
    {
        output[at + i] = lanes[i];
        i += 1;
    }
    assert(output@ =~= old(output)@.take(at as int) + lanes@ + old(output)@.skip(at + 8));
}

/// The keep mask of a block: bit `i` is set exactly when the kernel keeps
/// lane `i`.
pub fn compute_filter_bitset(
    lanes: &Lanes,
    charset: LowerAsciiCharset,
    last_added: LowerAsciiCharset,
) -> (mask: u8)
    ensures
        is_keep_mask(mask, lanes@, charset, last_added),
{
    let mut mask: u8 = 0;
    let mut i: u8 = 0;
    assert forall|j: u8| j < 8 implies !#[trigger] lane_bit(0u8, j) by {
        lemma_mask_zero(j);
    }
    while i < 8
        invariant
            i <= 8,
            forall|j: u8|
                j < 8 ==> #[trigger] lane_bit(mask, j) == (j < i && keeps(
                    lanes@[j as int],
                    charset,
                    last_added,
                )),
        decreases 8 - i,
    {
        let c = lanes[i as usize];
        if !c.intersects(charset) && c.bits_value() > last_added.bits_value() {
            let ghost before = mask;
            mask = mask | (1u8 << i);
            assert forall|j: u8| j < 8 implies #[trigger] lane_bit(mask, j) == (j < i + 1
                && keeps(lanes@[j as int], charset, last_added)) by {
                lemma_mask_set_lane(before, i, j);
            }
        }
        i += 1;
    }
    mask
}

/// For a keep mask, the lane to read for each lane of the gathered block:
/// the kept lanes first, in ascending order, then lane 0 for the rest.
pub fn lane_mapping(mask: u8) -> (mapping: ([u8; 8], usize))
    ensures
        mapping.1 == kept_lanes(mask, 8).len(),
        mapping.1 <= 8,
        forall|j: int| 0 <= j < mapping.1 ==> mapping.0@[j] == kept_lanes(mask, 8)[j],
        forall|j: int| mapping.1 <= j < 8 ==> mapping.0@[j] == 0,
{
    let mut lanes: [u8; 8] = [0; 8];
    let mut count: usize = 0;
    let mut i: u8 = 0;
    while i < 8
        invariant
            i <= 8,
            count == kept_lanes(mask, i as nat).len(),
            count <= i,
            forall|j: int| 0 <= j < count ==> lanes@[j] == kept_lanes(mask, i as nat)[j],
            forall|j: int| count <= j < 8 ==> lanes@[j] == 0,
        decreases 8 - i,
    {
        if (mask >> i) & 1 == 1 {
            lanes[count] = i;
            count += 1;
        }
        i += 1;
    }
    (lanes, count)
}

/// Gathers the lanes that `mask` keeps to the front of the block, in their
/// order.
pub fn compact(data: &Lanes, mask: u8) -> (packed: (Lanes, usize))
    ensures
        packed.1 == kept_lanes(mask, 8).len(),
        packed.1 <= 8,
        packed.0@.take(packed.1 as int) == kept_lanes(mask, 8).map_values(|i: int| data@[i]),
{
    let (mapping, count) = lane_mapping(mask);
    let mut out: Lanes = *data;
    let mut i: usize = 0;
    proof {
        lemma_kept_lanes_bounds(mask, 8);
    }
    while i < 8
        invariant
            i <= 8,
            count == kept_lanes(mask, 8).len(),
            count <= 8,
            forall|j: int| 0 <= j < count ==> mapping@[j] == kept_lanes(mask, 8)[j],
            forall|j: int| count <= j < 8 ==> mapping@[j] == 0,
            forall|j: int|
                0 <= j < kept_lanes(mask, 8).len() ==> 0 <= #[trigger] kept_lanes(mask, 8)[j] < 8,
            forall|j: int| 0 <= j < i ==> out@[j] == data@[mapping@[j] as int],
        decreases 8 - i,
    {
        let from: u8 = mapping[i];
        assert(from < 8) by {
            if i < count {
                assert(mapping@[i as int] == kept_lanes(mask, 8)[i as int]);
            }
        }
        out[i] = data[from as usize];
        i += 1;
    }
    assert(out@.take(count as int) =~= kept_lanes(mask, 8).map_values(|i: int| data@[i]));
    (out, count)
}

/// Runs the kernel over the first `num_words` blocks of `input`, packing what
/// it keeps at the front of `output`, and returns how many candidates that is.
/// Between that front and the end of the blocks `output` is scratch; behind
/// the blocks it is left as it was.
pub fn filter_vec_avx2_aux(
    input: &[LowerAsciiCharset],
    charset: LowerAsciiCharset,
    last_added: LowerAsciiCharset,
    output: &mut Vec<LowerAsciiCharset>,
    num_words: usize,
) -> (output_len: usize)
    requires
        num_words * 8 <= input@.len(),
        old(output)@.len() >= num_words * 8,
    ensures
        final(output)@.len() == old(output)@.len(),
        output_len <= num_words * 8,
        final(output)@.take(output_len as int) == filter_spec(
            input@.take(num_words * 8),
            charset,
            last_added,
        ),
        final(output)@.skip(num_words * 8) == old(output)@.skip(num_words * 8),
{
    let mut output_tail: usize = 0;
    let mut k: usize = 0;
    proof {
        reveal(Seq::filter);
        assert(input@.take(0) =~= Seq::empty());
        assert(output@.take(0) =~= Seq::empty());
    }
    while k < num_words
        invariant
            k <= num_words,
            num_words * 8 <= input.len(),
            output@.len() == old(output)@.len(),
            output.len() >= num_words * 8,
            output_tail <= k * 8,
            output@.take(output_tail as int) == filter_spec(
                input@.take(k * 8),
                charset,
                last_added,
            ),
            output@.skip(num_words * 8) == old(output)@.skip(num_words * 8),
        decreases num_words - k,
    {
        let word = load_lanes(input, k * 8);
        let keeper_bitset = compute_filter_bitset(&word, charset, last_added);
        let (compacted_output, added_len) = compact(&word, keeper_bitset);
        let ghost before = output@;
        store_lanes(output, output_tail, &compacted_output);
        proof {
            let block = input@.subrange(k * 8, k * 8 + 8);
            lemma_kept_lanes_filter(keeper_bitset, block, charset, last_added, 8);
            assert(block.take(8) =~= block);
            assert(input@.take((k + 1) * 8) =~= input@.take(k * 8) + block);
            Seq::filter_distributes_over_add(
                input@.take(k * 8),
                block,
                |c: LowerAsciiCharset| keeps(c, charset, last_added),
            );
            assert(output@.take(output_tail + added_len) =~= before.take(output_tail as int)
                + compacted_output@.take(added_len as int));
            assert(output@.skip(num_words * 8) =~= before.skip(num_words * 8));
        }
        output_tail += added_len;
        k += 1;
    }
    output_tail
}

/// The kernel in blocks of eight lanes; what is left over after the last
/// whole block is filtered one candidate at a time.
pub fn filter_vec_avx2(
    input: &[LowerAsciiCharset],
    charset: LowerAsciiCharset,
    last_added: LowerAsciiCharset,
) -> (out: Vec<LowerAsciiCharset>)
    ensures
        out@ == filter_spec(input@, charset, last_added),
{
    let mut output: Vec<LowerAsciiCharset> = vec![LowerAsciiCharset::default(); input.len()];
    let num_words = input.len() / NUM_LANES;
    let output_len = filter_vec_avx2_aux(input, charset, last_added, &mut output, num_words);
    output.truncate(output_len);

    let excess = input.len() % NUM_LANES;
    let mut i: usize = 0;
    while i < excess
        invariant
            i <= excess,
            num_words * 8 + excess == input.len(),
            output@ == filter_spec(input@.take(num_words * 8 + i), charset, last_added),
        decreases excess - i,
    {
        let idx = num_words * NUM_LANES + i;
        let c = input[idx];
        proof {
            assert(input@.take(idx + 1) =~= input@.take(idx as int).push(c));
            lemma_filter_push(input@.take(idx as int), c, charset, last_added);
            lemma_intersects_symmetric(charset, c);
        }
        if !charset.intersects(c) && c.bits_value() > last_added.bits_value() {
            output.push(c);
        }
        i += 1;
    }
    assert(input@.take(input@.len() as int) =~= input@);
    output
}

} // verus!
