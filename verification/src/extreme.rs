//! When a unanimous count of neighbours deserves a second, wider look.

use crate::decimals::{
    BITS_0_008, BITS_0_026, BITS_0_028, BITS_0_03, BITS_0_06, BITS_0_07, BITS_0_08, BITS_0_13,
    BITS_0_18, BITS_0_22, BITS_0_24, BITS_0_25, BITS_0_29, BITS_0_3, BITS_0_33, BITS_0_35,
    BITS_0_38, BITS_0_4, BITS_0_41, BITS_0_45, BITS_0_48, BITS_0_49, BITS_0_5, BITS_0_53,
    BITS_0_55, BITS_0_56, BITS_0_59, BITS_0_7, BITS_0_75, BITS_0_76, BITS_0_82, BITS_0_9,
    BITS_0_99, BITS_MINUS_0_5,
};
use crate::index::DIMENSIONS;
use crate::single::Single;
use vstd::prelude::*;

verus! {

/// `low <= value`, the bound given by its bits.
pub open spec fn from(value: Single, low: u32) -> bool {
    value.ge(Single { bits: low })
}

/// `value <= high`, the bound given by its bits.
pub open spec fn up_to(value: Single, high: u32) -> bool {
    value.le(Single { bits: high })
}

/// `low <= value <= high`, the bounds given by their bits.
pub open spec fn within(value: Single, low: u32, high: u32) -> bool {
    from(value, low) && up_to(value, high)
}

/// `value < limit`, the limit given by its bits.
pub open spec fn below(value: Single, limit: u32) -> bool {
    value.lt(Single { bits: limit })
}

/// The last transaction was about a day ago, or longer.
pub open spec fn last_is_old(query: Seq<Single>) -> bool {
    from(query[5], BITS_0_99)
}

/// There was no last transaction.
pub open spec fn last_is_missing(query: Seq<Single>) -> bool {
    below(query[5], BITS_MINUS_0_5) && below(query[6], BITS_MINUS_0_5)
}

/// Where a query with an old last transaction and no fraudulent neighbour is doubted.
pub open spec fn doubtful_old_clean(query: Seq<Single>) -> bool {
    &&& within(query[0], BITS_0_08, BITS_0_29)
    &&& within(query[1], BITS_0_25, BITS_0_59)
    &&& from(query[2], BITS_0_4)
    &&& within(query[6], BITS_0_03, BITS_0_29)
    &&& within(query[7], BITS_0_03, BITS_0_41)
    &&& up_to(query[8], BITS_0_56)
    &&& within(query[13], BITS_0_008, BITS_0_026)
}

/// Where a query with an old last transaction and only fraudulent neighbours is doubted.
pub open spec fn doubtful_old_fraudulent(query: Seq<Single>) -> bool {
    &&& within(query[0], BITS_0_07, BITS_0_48)
    &&& within(query[1], BITS_0_33, BITS_0_76)
    &&& from(query[2], BITS_0_5)
    &&& within(query[6], BITS_0_07, BITS_0_53)
    &&& within(query[7], BITS_0_06, BITS_0_49)
    &&& within(query[8], BITS_0_4, BITS_0_7)
    &&& up_to(query[13], BITS_0_028)
}

/// Where a query without a last transaction and no fraudulent neighbour is doubted.
pub open spec fn doubtful_first_clean(query: Seq<Single>) -> bool {
    &&& within(query[0], BITS_0_08, BITS_0_13)
    &&& within(query[2], BITS_0_22, BITS_0_38)
    &&& within(query[7], BITS_0_07, BITS_0_13)
    &&& within(query[8], BITS_0_18, BITS_0_22)
    &&& below(query[9], BITS_0_5)
    &&& below(query[11], BITS_0_5)
    &&& within(query[12], BITS_0_25, BITS_0_5)
}

/// Where a query without a last transaction and only fraudulent neighbours is doubted.
pub open spec fn doubtful_first_fraudulent(query: Seq<Single>) -> bool {
    &&& within(query[0], BITS_0_24, BITS_0_3)
    &&& within(query[2], BITS_0_82, BITS_0_9)
    &&& within(query[7], BITS_0_35, BITS_0_45)
    &&& within(query[8], BITS_0_45, BITS_0_55)
    &&& below(query[9], BITS_0_5)
    &&& from(query[10], BITS_0_5)
    &&& from(query[11], BITS_0_5)
    &&& from(query[12], BITS_0_75)
}

/// Whether a count of fraudulent neighbours is unanimous and yet to be doubted for the query.
pub open spec fn is_doubtful(frauds: u8, query: Seq<Single>) -> bool {
    ||| frauds == 0 && last_is_old(query) && doubtful_old_clean(query)
    ||| frauds == 5 && last_is_old(query) && doubtful_old_fraudulent(query)
    ||| frauds == 0 && last_is_missing(query) && doubtful_first_clean(query)
    ||| frauds == 5 && last_is_missing(query) && doubtful_first_fraudulent(query)
}

fn is_from(value: Single, low: u32) -> (answer: bool)
    ensures
        answer == from(value, low),
{
    value.at_least(Single::from_bits(low))
}

fn is_up_to(value: Single, high: u32) -> (answer: bool)
    ensures
        answer == up_to(value, high),
{
    value.at_most(Single::from_bits(high))
}

fn is_within(value: Single, low: u32, high: u32) -> (answer: bool)
    ensures
        answer == within(value, low, high),
{
    is_from(value, low) && is_up_to(value, high)
}

fn is_below(value: Single, limit: u32) -> (answer: bool)
    ensures
        answer == below(value, limit),
{
    value.less_than(Single::from_bits(limit))
}

/// Whether a count of fraudulent neighbours is unanimous and yet to be doubted for the query.
pub fn should_repair_extreme(frauds: u8, query: &[Single; DIMENSIONS]) -> (answer: bool)
    ensures
        answer == is_doubtful(frauds, query@),
{
    let old_last_transaction: bool = is_from(query[5], BITS_0_99);
    if old_last_transaction {
        if frauds == 0 {
            return is_within(query[0], BITS_0_08, BITS_0_29) && is_within(
                query[1],
                BITS_0_25,
                BITS_0_59,
            ) && is_from(query[2], BITS_0_4) && is_within(query[6], BITS_0_03, BITS_0_29)
                && is_within(query[7], BITS_0_03, BITS_0_41) && is_up_to(query[8], BITS_0_56)
                && is_within(query[13], BITS_0_008, BITS_0_026);
        }
        if frauds == 5 {
            return is_within(query[0], BITS_0_07, BITS_0_48) && is_within(
                query[1],
                BITS_0_33,
                BITS_0_76,
            ) && is_from(query[2], BITS_0_5) && is_within(query[6], BITS_0_07, BITS_0_53)
                && is_within(query[7], BITS_0_06, BITS_0_49) && is_within(
                query[8],
                BITS_0_4,
                BITS_0_7,
            ) && is_up_to(query[13], BITS_0_028);
        }
    }
    let no_last_transaction: bool = is_below(query[5], BITS_MINUS_0_5) && is_below(
        query[6],
        BITS_MINUS_0_5,
    );
    if !no_last_transaction {
        return false;
    }
    if frauds == 0 {
        return is_within(query[0], BITS_0_08, BITS_0_13) && is_within(
            query[2],
            BITS_0_22,
            BITS_0_38,
        ) && is_within(query[7], BITS_0_07, BITS_0_13) && is_within(query[8], BITS_0_18, BITS_0_22)
            && is_below(query[9], BITS_0_5) && is_below(query[11], BITS_0_5) && is_within(
            query[12],
            BITS_0_25,
            BITS_0_5,
        );
    }
    if frauds == 5 {
        return is_within(query[0], BITS_0_24, BITS_0_3) && is_within(
            query[2],
            BITS_0_82,
            BITS_0_9,
        ) && is_within(query[7], BITS_0_35, BITS_0_45) && is_within(query[8], BITS_0_45, BITS_0_55)
            && is_below(query[9], BITS_0_5) && is_from(query[10], BITS_0_5) && is_from(
            query[11],
            BITS_0_5,
        ) && is_from(query[12], BITS_0_75);
    }
    false
}

/// Not below a positive bound, by the bits: the bits of positive numbers grow with them.
pub open spec fn reaches(value: Single, low: u32) -> bool {
    low <= value.bits <= 0x7f80_0000
}

/// A number below 0, -0 or negative infinity, by the bits.
pub open spec fn is_signed(value: Single) -> bool {
    0x8000_0000 <= value.bits <= 0xff80_0000
}

/// Between two positive bounds, both included, by the bits.
pub open spec fn between(value: Single, low: u32, high: u32) -> bool {
    low <= value.bits <= high
}

/// The counts that are doubted, coordinate by coordinate. Only 0 and 5 ever are. Bounds are
/// included, but for the half that flags are told apart by and the one that tells that there was no
/// last transaction; what is no number is never within bounds.
pub proof fn law_doubts_are_bounded(frauds: u8, query: Seq<Single>)
    ensures
        ({
            let old = reaches(query[5], BITS_0_99);
            let missing = 0xbf00_0000 < query[5].bits <= 0xff80_0000 && 0xbf00_0000 < query[6].bits
                <= 0xff80_0000;
            let old_clean = between(query[0], BITS_0_08, BITS_0_29) && between(
                query[1],
                BITS_0_25,
                BITS_0_59,
            ) && reaches(query[2], BITS_0_4) && between(query[6], BITS_0_03, BITS_0_29) && between(
                query[7],
                BITS_0_03,
                BITS_0_41,
            ) && (query[8].bits <= BITS_0_56 || is_signed(query[8])) && between(
                query[13],
                BITS_0_008,
                BITS_0_026,
            );
            let old_fraudulent = between(query[0], BITS_0_07, BITS_0_48) && between(
                query[1],
                BITS_0_33,
                BITS_0_76,
            ) && reaches(query[2], BITS_0_5) && between(query[6], BITS_0_07, BITS_0_53) && between(
                query[7],
                BITS_0_06,
                BITS_0_49,
            ) && between(query[8], BITS_0_4, BITS_0_7) && (query[13].bits <= BITS_0_028
                || is_signed(query[13]));
            let first_clean = between(query[0], BITS_0_08, BITS_0_13) && between(
                query[2],
                BITS_0_22,
                BITS_0_38,
            ) && between(query[7], BITS_0_07, BITS_0_13) && between(query[8], BITS_0_18, BITS_0_22)
                && (query[9].bits < BITS_0_5 || is_signed(query[9])) && (query[11].bits < BITS_0_5
                || is_signed(query[11])) && between(query[12], BITS_0_25, BITS_0_5);
            let first_fraudulent = between(query[0], BITS_0_24, BITS_0_3) && between(
                query[2],
                BITS_0_82,
                BITS_0_9,
            ) && between(query[7], BITS_0_35, BITS_0_45) && between(query[8], BITS_0_45, BITS_0_55)
                && (query[9].bits < BITS_0_5 || is_signed(query[9])) && reaches(query[10], BITS_0_5)
                && reaches(query[11], BITS_0_5) && reaches(query[12], BITS_0_75);
            &&& frauds == 0 ==> is_doubtful(frauds, query) == (old && old_clean || missing
                && first_clean)
            &&& frauds == 5 ==> is_doubtful(frauds, query) == (old && old_fraudulent || missing
                && first_fraudulent)
            &&& frauds != 0 && frauds != 5 ==> !is_doubtful(frauds, query)
        }),
{
}

} // verus!
