//! The filter-and-compact kernel: of a list of candidate charsets, keep those
//! that share no symbol with an exclusion charset and that come after a floor,
//! in their order and without gaps.

use vstd::prelude::*;
use crate::charset::LowerAsciiCharset;

pub mod filter_vec_avx2;

verus! {

/// Whether the kernel keeps candidate `c`: it shares no symbol with `charset`
/// and its mask is greater than that of `last_added`.
pub open spec fn keeps(
    c: LowerAsciiCharset,
    charset: LowerAsciiCharset,
    last_added: LowerAsciiCharset,
) -> bool {
    !c.intersects(charset) && c.bits() > last_added.bits()
}

/// The candidates that the kernel keeps, in the order of `input`.
pub open spec fn filter_spec(
    input: Seq<LowerAsciiCharset>,
    charset: LowerAsciiCharset,
    last_added: LowerAsciiCharset,
) -> Seq<LowerAsciiCharset> {
    input.filter(|c: LowerAsciiCharset| keeps(c, charset, last_added))
}

/// Filtering one more candidate either appends it or changes nothing.
pub proof fn lemma_filter_push(
    input: Seq<LowerAsciiCharset>,
    c: LowerAsciiCharset,
    charset: LowerAsciiCharset,
    last_added: LowerAsciiCharset,
)
    ensures
        filter_spec(input.push(c), charset, last_added) == if keeps(c, charset, last_added) {
            filter_spec(input, charset, last_added).push(c)
        } else {
            filter_spec(input, charset, last_added)
        },
{
    reveal(Seq::filter);
    assert(input.push(c).drop_last() =~= input);
}

/// The kernel keeps what it has kept: filtering its result again with the
/// same exclusion and floor changes nothing.
pub proof fn lemma_filter_idempotent(
    input: Seq<LowerAsciiCharset>,
    charset: LowerAsciiCharset,
    last_added: LowerAsciiCharset,
)
    ensures
        filter_spec(filter_spec(input, charset, last_added), charset, last_added) == filter_spec(
            input,
            charset,
            last_added,
        ),
    decreases input.len(),
{
    reveal(Seq::filter);
    if input.len() > 0 {
        let init = input.drop_last();
        let c = input.last();
        lemma_filter_idempotent(init, charset, last_added);
        assert(init.push(c) =~= input);
        lemma_filter_push(init, c, charset, last_added);
        if keeps(c, charset, last_added) {
            lemma_filter_push(filter_spec(init, charset, last_added), c, charset, last_added);
        }
    }
}

/// The two paths of the kernel agree: a list that is what the path by single
/// candidates returns and a list that is what the lane-wise path returns, for
/// one input, exclusion and floor, are the same list.
pub proof fn lemma_kernels_agree(
    input: Seq<LowerAsciiCharset>,
    charset: LowerAsciiCharset,
    last_added: LowerAsciiCharset,
    by_candidate: Seq<LowerAsciiCharset>,
    by_lanes: Seq<LowerAsciiCharset>,
)
    requires
        by_candidate == filter_spec(input, charset, last_added),
        by_lanes == filter_spec(input, charset, last_added),
    ensures
        by_candidate == by_lanes,
{
}

/// What the kernel keeps was in its input, shares no symbol with the
/// exclusion and comes after the floor; and it keeps every such candidate.
pub proof fn lemma_filter_members(
    input: Seq<LowerAsciiCharset>,
    charset: LowerAsciiCharset,
    last_added: LowerAsciiCharset,
    c: LowerAsciiCharset,
)
    ensures
        filter_spec(input, charset, last_added).contains(c) <==> input.contains(c) && keeps(
            c,
            charset,
            last_added,
        ),
{
    let pred = |c: LowerAsciiCharset| keeps(c, charset, last_added);
    let kept = filter_spec(input, charset, last_added);
    if kept.contains(c) {
        input.lemma_filter_contains_rev(pred, c);
        let i = choose|i: int| 0 <= i < kept.len() && kept[i] == c;
        input.lemma_filter_pred(pred, i);
    }
    if input.contains(c) && keeps(c, charset, last_added) {
        let i = choose|i: int| 0 <= i < input.len() && input[i] == c;
        input.lemma_filter_contains(pred, i);
    }
}

/// Runs the kernel: on the lane-wise path where `wide` is set, one candidate
/// at a time where it is not. Both give the same list.
pub fn filter_vec(
    input: &[LowerAsciiCharset],
    charset: LowerAsciiCharset,
    last_added: LowerAsciiCharset,
    wide: bool,
) -> (out: Vec<LowerAsciiCharset>)
    ensures
        out@ == filter_spec(input@, charset, last_added),
{
    if wide {
        return filter_vec_avx2::filter_vec_avx2(input, charset, last_added);
    }
    filter_vec_scalar(input, charset, last_added)
}

/// The kernel, one candidate at a time.
pub fn filter_vec_scalar(
    input: &[LowerAsciiCharset],
    charset: LowerAsciiCharset,
    last_added: LowerAsciiCharset,
) -> (out: Vec<LowerAsciiCharset>)
    ensures
        out@ == filter_spec(input@, charset, last_added),
{
    let mut out: Vec<LowerAsciiCharset> = Vec::new();
    let mut i: usize = 0;
    assert(input@.take(0) =~= Seq::empty());
    assert(filter_spec(Seq::empty(), charset, last_added) =~= Seq::empty()) by {
        reveal(Seq::filter);
    }
    while i < input.len()
        invariant
            i <= input@.len(),
            out@ == filter_spec(input@.take(i as int), charset, last_added),
        decreases input@.len() - i,
    {
        let c = input[i];
        proof {
            assert(input@.take(i + 1) =~= input@.take(i as int).push(c));
            lemma_filter_push(input@.take(i as int), c, charset, last_added);
        }
        if !c.intersects(charset) && c.bits_value() > last_added.bits_value() {
            out.push(c);
        }
        i += 1;
    }
    assert(input@.take(input@.len() as int) =~= input@);
    out
}

} // verus!
