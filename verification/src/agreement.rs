//! The two ways to read a request come to the same vector.

use crate::compact::{codes_of, law_written_requests_are_read_back, Layout, Written};
use crate::json::{category_risk, first_codes, merchant_code};
use crate::payload::{features, scanned, Amounts, Payload, Scanned};
use crate::text::{decimal, is_digit};
use vstd::prelude::*;

verus! {

/// The bytes of a text.
pub open spec fn bytes_of(text: Seq<char>) -> Seq<u8> {
    vstd::utf8::encode_utf8(text)
}

/// The codes are those of the merchants the customer knows.
pub open spec fn codes_of_known(payload: &Payload, codes: Seq<u16>) -> bool {
    &&& codes.len() == payload.customer.known_merchants@.len()
    &&& forall|i: int|
        0 <= i < codes.len() ==> merchant_code(
            bytes_of(payload.customer.known_merchants@[i]@),
        ) == Some(#[trigger] codes[i])
}

/// The scanned request, with its numbers at these values, says the same as the payload: the
/// numbers, flags and moments are equal, and the codes are those of the merchants named.
pub open spec fn says_the_same(
    request: &Scanned,
    amounts: Amounts,
    codes: Seq<u16>,
    payload: &Payload,
) -> bool {
    &&& amounts.amount == payload.transaction.amount
    &&& amounts.customer_avg_amount == payload.customer.avg_amount
    &&& amounts.merchant_avg_amount == payload.merchant.avg_amount
    &&& amounts.km_from_home == payload.terminal.km_from_home
    &&& request.installments == payload.transaction.installments
    &&& request.tx_count_24h == payload.customer.tx_count_24h
    &&& request.is_online == payload.terminal.is_online
    &&& request.card_present == payload.terminal.card_present
    &&& Some(request.requested_at) == payload.requested()
    &&& request.mcc_risk == category_risk(bytes_of(payload.merchant.mcc@))
    &&& merchant_code(bytes_of(payload.merchant.id@)) == Some(request.merchant_id)
    &&& codes_of_known(payload, codes)
    &&& request.known_merchants@ == first_codes(codes)
    &&& match (request.last_transaction, payload.last_transaction) {
        (Some(scanned), Some(last)) => {
            &&& Some(scanned.timestamp) == crate::calendar::moment(bytes_of(last.timestamp@))
            &&& amounts.km_from_last == last.km_from_current
        },
        (None, None) => true,
        _ => false,
    }
}

/// A merchant's code has three digits.
pub proof fn lemma_merchant_code_below(id: Seq<u8>)
    ensures
        merchant_code(id) matches Some(code) ==> code < 1000,
{
    if merchant_code(id) is Some {
        lemma_three_digits(id);
    }
}

/// What three digits write.
proof fn lemma_three_digits(id: Seq<u8>)
    requires
        id.len() == 8,
        is_digit(id[5]) && is_digit(id[6]) && is_digit(id[7]),
    ensures
        decimal(id.subrange(5, 8)) == 100 * (id[5] - 0x30) + 10 * (id[6] - 0x30) + (id[7] - 0x30),
{
    reveal_with_fuel(decimal, 4);
}

/// Two merchants' ids with the same code are the same bytes.
proof fn lemma_same_code_same_bytes(one: Seq<u8>, other: Seq<u8>)
    requires
        merchant_code(one) is Some,
        merchant_code(one) == merchant_code(other),
    ensures
        one == other,
{
    lemma_three_digits(one);
    lemma_three_digits(other);
    assert forall|i: int| 0 <= i < 8 implies one[i] == other[i] by {
        if i < 5 {
            assert(one.take(5)[i] == other.take(5)[i]);
        }
    }
    assert(one =~= other);
}

/// Two merchants' ids with the same code are the same.
pub proof fn law_codes_tell_merchants_apart(one: Seq<char>, other: Seq<char>)
    requires
        merchant_code(bytes_of(one)) is Some,
        merchant_code(bytes_of(one)) == merchant_code(bytes_of(other)),
    ensures
        one == other,
{
    lemma_same_code_same_bytes(bytes_of(one), bytes_of(other));
    vstd::utf8::encode_utf8_decode_utf8(one);
    vstd::utf8::encode_utf8_decode_utf8(other);
}

/// Slots without a merchant never match one: a merchant is found exactly where its code is among
/// the first 16.
pub proof fn law_free_slots_match_no_merchant(id: Seq<u8>, codes: Seq<u16>)
    requires
        merchant_code(id) is Some,
    ensures
        first_codes(codes).contains(merchant_code(id)->0) <==> exists|i: int|
            0 <= i < codes.len() && i < 16 && #[trigger] codes[i] == merchant_code(id)->0,
{
    let code = merchant_code(id)->0;
    lemma_merchant_code_below(id);
    if first_codes(codes).contains(code) {
        let i = choose|i: int| 0 <= i < 16 && first_codes(codes)[i] == code;
        assert(codes[i] == code);
    }
    if exists|i: int| 0 <= i < codes.len() && i < 16 && #[trigger] codes[i] == code {
        let i = choose|i: int| 0 <= i < codes.len() && i < 16 && #[trigger] codes[i] == code;
        assert(first_codes(codes)[i] == code);
    }
}

/// A scanned request and a payload that say the same give the same vector. The one exception is a
/// customer who knows the merchant, but lists it behind 16 others: a scanned request does not
/// hold it any more.
pub proof fn law_both_readings_agree(
    request: &Scanned,
    amounts: Amounts,
    codes: Seq<u16>,
    payload: &Payload,
)
    requires
        says_the_same(request, amounts, codes, payload),
        codes.contains(request.merchant_id) ==> exists|i: int|
            0 <= i < codes.len() && i < 16 && #[trigger] codes[i] == request.merchant_id,
    ensures
        payload.facts() == Some(request.facts_with(amounts)),
        payload.facts() matches Some(facts) && features(facts) == features(
            request.facts_with(amounts),
        ),
{
    let known = payload.customer.known_merchants@;
    let id = payload.merchant.id@;
    law_free_slots_match_no_merchant(bytes_of(id), codes);
    if request.known_merchants@.contains(request.merchant_id) {
        let i = choose|i: int|
            0 <= i < codes.len() && i < 16 && #[trigger] codes[i] == request.merchant_id;
        law_codes_tell_merchants_apart(known[i]@, id);
        assert(known[i]@ == id);
    }
    if payload.is_known() {
        let i = choose|i: int| 0 <= i < known.len() && #[trigger] known[i]@ == id;
        assert(codes[i] == request.merchant_id);
        assert(codes.contains(request.merchant_id));
    }
    assert(payload.is_known() == request.known_merchants@.contains(request.merchant_id));
}

/// The payload holds the members of the written request, with its numbers at these values.
pub open spec fn holds(payload: &Payload, written: Written, amounts: Amounts) -> bool {
    &&& payload.transaction.amount == amounts.amount
    &&& payload.transaction.installments == decimal(written.installments)
    &&& bytes_of(payload.transaction.requested_at@) == written.requested_at
    &&& payload.customer.avg_amount == amounts.customer_avg_amount
    &&& payload.customer.tx_count_24h == decimal(written.tx_count_24h)
    &&& payload.customer.known_merchants@.len() == written.known_merchants.len()
    &&& forall|i: int|
        0 <= i < written.known_merchants.len() ==> bytes_of(
            payload.customer.known_merchants@[i]@,
        ) == #[trigger] written.known_merchants[i]
    &&& bytes_of(payload.merchant.id@) == written.merchant_id
    &&& bytes_of(payload.merchant.mcc@) == written.mcc
    &&& payload.merchant.avg_amount == amounts.merchant_avg_amount
    &&& payload.terminal.is_online == written.is_online
    &&& payload.terminal.card_present == written.card_present
    &&& payload.terminal.km_from_home == amounts.km_from_home
    &&& match (payload.last_transaction, written.last_transaction) {
        (Some(last), Some(other)) => {
            &&& bytes_of(last.timestamp@) == other.timestamp
            &&& last.km_from_current == amounts.km_from_last
        },
        (None, None) => true,
        _ => false,
    }
}

/// For every written request, what is scanned from it and a payload with its members give the
/// same vector. The one exception is a customer who knows the merchant, but lists it behind 16
/// others.
pub proof fn law_readings_of_a_written_request_agree(
    written: Written,
    layout: Layout,
    request: &Scanned,
    amounts: Amounts,
    payload: &Payload,
)
    requires
        written.is_sound(),
        layout.is_sound(),
        scanned(written.text(layout)) == Some(request@),
        holds(payload, written, amounts),
        written.known_merchants.contains(written.merchant_id) ==> exists|i: int|
            0 <= i < written.known_merchants.len() && i < 16
                && #[trigger] written.known_merchants[i] == written.merchant_id,
    ensures
        payload.facts() == Some(request.facts_with(amounts)),
        payload.facts() matches Some(facts) && features(facts) == features(
            request.facts_with(amounts),
        ),
{
    law_written_requests_are_read_back(written, layout);
    let known = written.known_merchants;
    let codes = codes_of(known);
    assert(request@ == written.meaning());
    assert forall|i: int| 0 <= i < codes.len() implies merchant_code(
        bytes_of(payload.customer.known_merchants@[i]@),
    ) == Some(#[trigger] codes[i]) by {
        assert(merchant_code(known[i]) is Some);
    }
    if codes.contains(request.merchant_id) {
        let i = choose|i: int| 0 <= i < codes.len() && codes[i] == request.merchant_id;
        assert(merchant_code(known[i]) is Some);
        lemma_same_code_same_bytes(known[i], written.merchant_id);
        assert(known.contains(written.merchant_id));
        let j = choose|j: int|
            0 <= j < known.len() && j < 16 && #[trigger] known[j] == written.merchant_id;
        assert(codes[j] == request.merchant_id);
    }
    law_both_readings_agree(request, amounts, codes, payload);
}

} // verus!
