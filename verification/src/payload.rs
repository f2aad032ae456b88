//! What a request says of a transaction, and the vector that is made of it.
//!
//! The vector's coordinates are quotients of single-precision numbers. They are given here as
//! [`Feature`]s: what to divide by what, and whether to clamp the quotient to the range from 0 to
//! 1.

use crate::calendar::{moment, parse_timestamp, Timestamp};
use crate::index::DIMENSIONS;
use crate::json::{
    category_risk, first_codes, is_null, json_bool, json_decimal, json_merchant, json_merchants,
    json_moment, json_risk, json_string, json_u32, next_value, past_brace, past_space, risk_of,
    scan_bool, scan_decimal, scan_json_string, scan_known_merchants, scan_mcc_risk,
    scan_merchant_code, scan_timestamp, scan_u32, skip_object_start, skip_space, value_start,
    word_is, word_null, Decimal, Numeral,
};
use crate::single::{Single, MINUS_ONE_BITS, ONE_BITS, ZERO_BITS};
use crate::text::same_text;
use vstd::prelude::*;

verus! {

/// The last transaction of a request that was scanned.
pub struct ScannedLast {
    pub timestamp: Timestamp,
    pub km_from_current: Decimal,
}

/// A request that was scanned. The merchants the customer knows are the codes of the first 16;
/// slots that are left hold `u16::MAX`, which is no merchant's code.
pub struct Scanned {
    pub amount: Decimal,
    pub installments: u32,
    pub requested_at: Timestamp,
    pub customer_avg_amount: Decimal,
    pub tx_count_24h: u32,
    pub known_merchants: [u16; 16],
    pub merchant_id: u16,
    pub mcc_risk: Single,
    pub merchant_avg_amount: Decimal,
    pub is_online: bool,
    pub card_present: bool,
    pub km_from_home: Decimal,
    pub last_transaction: Option<ScannedLast>,
}

/// What a [`Scanned`] holds, part by part.
pub struct ScannedView {
    pub transaction: TransactionView,
    pub customer: CustomerView,
    pub merchant: MerchantView,
    pub terminal: TerminalView,
    pub last: Option<LastView>,
}

pub struct TransactionView {
    pub amount: Numeral,
    pub installments: u32,
    pub requested_at: Timestamp,
}

pub struct CustomerView {
    pub avg_amount: Numeral,
    pub tx_count_24h: u32,
    pub known_merchants: Seq<u16>,
}

pub struct MerchantView {
    pub id: u16,
    pub risk: Single,
    pub avg_amount: Numeral,
}

pub struct TerminalView {
    pub is_online: bool,
    pub card_present: bool,
    pub km_from_home: Numeral,
}

pub struct LastView {
    pub timestamp: Timestamp,
    pub km_from_current: Numeral,
}

impl View for ScannedLast {
    type V = LastView;

    open spec fn view(&self) -> LastView {
        LastView { timestamp: self.timestamp, km_from_current: self.km_from_current@ }
    }
}

impl View for Scanned {
    type V = ScannedView;

    open spec fn view(&self) -> ScannedView {
        ScannedView {
            transaction: TransactionView {
                amount: self.amount@,
                installments: self.installments,
                requested_at: self.requested_at,
            },
            customer: CustomerView {
                avg_amount: self.customer_avg_amount@,
                tx_count_24h: self.tx_count_24h,
                known_merchants: self.known_merchants@,
            },
            merchant: MerchantView {
                id: self.merchant_id,
                risk: self.mcc_risk,
                avg_amount: self.merchant_avg_amount@,
            },
            terminal: TerminalView {
                is_online: self.is_online,
                card_present: self.card_present,
                km_from_home: self.km_from_home@,
            },
            last: match self.last_transaction {
                Some(last) => Some(last@),
                None => None,
            },
        }
    }
}

/// What was read and where it ended, if anything was read.
pub open spec fn success<T>(scan: (Option<T>, int)) -> Option<(T, int)> {
    match scan.0 {
        Some(value) => Some((value, scan.1)),
        None => None,
    }
}

/// A string behind the next colon.
pub open spec fn next_string(body: Seq<u8>, at: int) -> Option<(Seq<u8>, int)> {
    match value_start(body, at) {
        Some(start) => success(json_string(body, start)),
        None => None,
    }
}

/// A number behind the next colon.
pub open spec fn next_decimal(body: Seq<u8>, at: int) -> Option<(Numeral, int)> {
    match value_start(body, at) {
        Some(start) => success(json_decimal(body, start)),
        None => None,
    }
}

/// A 32-bit number behind the next colon.
pub open spec fn next_u32(body: Seq<u8>, at: int) -> Option<(u32, int)> {
    match value_start(body, at) {
        Some(start) => success(json_u32(body, start)),
        None => None,
    }
}

/// A truth value behind the next colon.
pub open spec fn next_bool(body: Seq<u8>, at: int) -> Option<(bool, int)> {
    match value_start(body, at) {
        Some(start) => success(json_bool(body, start)),
        None => None,
    }
}

/// A moment behind the next colon.
pub open spec fn next_moment(body: Seq<u8>, at: int) -> Option<(Timestamp, int)> {
    match value_start(body, at) {
        Some(start) => success(json_moment(body, start)),
        None => None,
    }
}

/// A list of merchants behind the next colon.
pub open spec fn next_merchants(body: Seq<u8>, at: int) -> Option<(Seq<u16>, int)> {
    match value_start(body, at) {
        Some(start) => success(json_merchants(body, start)),
        None => None,
    }
}

/// A merchant behind the next colon.
pub open spec fn next_merchant(body: Seq<u8>, at: int) -> Option<(u16, int)> {
    match value_start(body, at) {
        Some(start) => success(json_merchant(body, start)),
        None => None,
    }
}

/// A risk behind the next colon.
pub open spec fn next_risk(body: Seq<u8>, at: int) -> Option<(Single, int)> {
    match value_start(body, at) {
        Some(start) => success(json_risk(body, start)),
        None => None,
    }
}

/// Where an object behind the next colon has its first member.
pub open spec fn object_start(body: Seq<u8>, at: int) -> Option<int> {
    match value_start(body, at) {
        Some(start) => Some(past_brace(body, start)),
        None => None,
    }
}

/// The amount, the number of installments and the moment of the transaction.
pub open spec fn transaction_part(body: Seq<u8>, at: int) -> Option<(TransactionView, int)> {
    match object_start(body, at) {
        Some(start) => match next_decimal(body, start) {
            Some((amount, end)) => match next_u32(body, end) {
                Some((installments, end)) => match next_moment(body, end) {
                    Some((requested_at, end)) => Some(
                        (TransactionView { amount, installments, requested_at }, end),
                    ),
                    None => None,
                },
                None => None,
            },
            None => None,
        },
        None => None,
    }
}

/// The customer's average amount, number of transactions and known merchants.
pub open spec fn customer_part(body: Seq<u8>, at: int) -> Option<(CustomerView, int)> {
    match object_start(body, at) {
        Some(start) => match next_decimal(body, start) {
            Some((avg_amount, end)) => match next_u32(body, end) {
                Some((tx_count_24h, end)) => match next_merchants(body, end) {
                    Some((codes, end)) => Some(
                        (
                            CustomerView {
                                avg_amount,
                                tx_count_24h,
                                known_merchants: first_codes(codes),
                            },
                            end,
                        ),
                    ),
                    None => None,
                },
                None => None,
            },
            None => None,
        },
        None => None,
    }
}

/// The merchant's code, risk and average amount.
pub open spec fn merchant_part(body: Seq<u8>, at: int) -> Option<(MerchantView, int)> {
    match object_start(body, at) {
        Some(start) => match next_merchant(body, start) {
            Some((id, end)) => match next_risk(body, end) {
                Some((risk, end)) => match next_decimal(body, end) {
                    Some((avg_amount, end)) => Some((MerchantView { id, risk, avg_amount }, end)),
                    None => None,
                },
                None => None,
            },
            None => None,
        },
        None => None,
    }
}

/// Whether the terminal is online and sees the card, and how far from home it is.
pub open spec fn terminal_part(body: Seq<u8>, at: int) -> Option<(TerminalView, int)> {
    match object_start(body, at) {
        Some(start) => match next_bool(body, start) {
            Some((is_online, end)) => match next_bool(body, end) {
                Some((card_present, end)) => match next_decimal(body, end) {
                    Some((km_from_home, end)) => Some(
                        (TerminalView { is_online, card_present, km_from_home }, end),
                    ),
                    None => None,
                },
                None => None,
            },
            None => None,
        },
        None => None,
    }
}

/// The last transaction, or `null`.
pub open spec fn last_part(body: Seq<u8>, at: int) -> Option<Option<LastView>> {
    match value_start(body, at) {
        Some(start) => if word_is(body, past_space(body, start), word_null()) {
            Some(None)
        } else {
            match next_moment(body, past_brace(body, past_space(body, start))) {
                Some((timestamp, end)) => match next_decimal(body, end) {
                    Some((km_from_current, _)) => Some(
                        Some(LastView { timestamp, km_from_current }),
                    ),
                    None => None,
                },
                None => None,
            }
        },
        None => None,
    }
}

/// What a request says, read in the order in which its members are expected: the id, the
/// transaction, the customer, the merchant, the terminal and the last transaction.
pub open spec fn scanned(body: Seq<u8>) -> Option<ScannedView> {
    match next_string(body, 0) {
        Some((_, end)) => match transaction_part(body, end) {
            Some((transaction, end)) => match customer_part(body, end) {
                Some((customer, end)) => match merchant_part(body, end) {
                    Some((merchant, end)) => match terminal_part(body, end) {
                        Some((terminal, end)) => match last_part(body, end) {
                            Some(last) => Some(
                                ScannedView { transaction, customer, merchant, terminal, last },
                            ),
                            None => None,
                        },
                        None => None,
                    },
                    None => None,
                },
                None => None,
            },
            None => None,
        },
        None => None,
    }
}

/// Reads a number behind the next colon.
fn decimal_value(body: &[u8], cursor: &mut usize) -> (number: Option<Decimal>)
    requires
        *old(cursor) <= body@.len(),
    ensures
        *final(cursor) <= body@.len(),
        match number {
            Some(number) => next_decimal(body@, *old(cursor) as int)
                == Some((number@, *final(cursor) as int)),
            None => next_decimal(body@, *old(cursor) as int) is None,
        },
{
    match next_value(body, *cursor) {
        Some(start) => {
            *cursor = start;
            scan_decimal(body, cursor)
        },
        None => None,
    }
}

/// Reads a 32-bit number behind the next colon.
fn u32_value(body: &[u8], cursor: &mut usize) -> (number: Option<u32>)
    requires
        *old(cursor) <= body@.len(),
    ensures
        *final(cursor) <= body@.len(),
        match number {
            Some(number) => next_u32(body@, *old(cursor) as int)
                == Some((number, *final(cursor) as int)),
            None => next_u32(body@, *old(cursor) as int) is None,
        },
{
    match next_value(body, *cursor) {
        Some(start) => {
            *cursor = start;
            scan_u32(body, cursor)
        },
        None => None,
    }
}

/// Reads a truth value behind the next colon.
fn bool_value(body: &[u8], cursor: &mut usize) -> (answer: Option<bool>)
    requires
        *old(cursor) <= body@.len(),
    ensures
        *final(cursor) <= body@.len(),
        match answer {
            Some(answer) => next_bool(body@, *old(cursor) as int)
                == Some((answer, *final(cursor) as int)),
            None => next_bool(body@, *old(cursor) as int) is None,
        },
{
    match next_value(body, *cursor) {
        Some(start) => {
            *cursor = start;
            scan_bool(body, cursor)
        },
        None => None,
    }
}

/// Reads a moment behind the next colon.
fn moment_value(body: &[u8], cursor: &mut usize) -> (timestamp: Option<Timestamp>)
    requires
        *old(cursor) <= body@.len(),
    ensures
        *final(cursor) <= body@.len(),
        timestamp matches Some(t) ==> -100_000_000_000 < t.total_seconds < 1_000_000_000_000,
        match timestamp {
            Some(timestamp) => next_moment(body@, *old(cursor) as int)
                == Some((timestamp, *final(cursor) as int)),
            None => next_moment(body@, *old(cursor) as int) is None,
        },
{
    match next_value(body, *cursor) {
        Some(start) => {
            *cursor = start;
            scan_timestamp(body, cursor)
        },
        None => None,
    }
}

/// Moves to the first member of the object behind the next colon.
fn enter_object(body: &[u8], cursor: &mut usize) -> (entered: Option<()>)
    requires
        *old(cursor) <= body@.len(),
    ensures
        *final(cursor) <= body@.len(),
        match entered {
            Some(_) => object_start(body@, *old(cursor) as int) == Some(*final(cursor) as int),
            None => object_start(body@, *old(cursor) as int) is None,
        },
{
    match next_value(body, *cursor) {
        Some(start) => {
            *cursor = start;
            skip_object_start(body, cursor);
            Some(())
        },
        None => None,
    }
}

/// Reads the transaction.
fn scan_transaction(body: &[u8], cursor: &mut usize) -> (part: Option<(Decimal, u32, Timestamp)>)
    requires
        *old(cursor) <= body@.len(),
    ensures
        *final(cursor) <= body@.len(),
        match part {
            Some((amount, installments, requested_at)) => {
                &&& transaction_part(body@, *old(cursor) as int) == Some(
                    (
                        TransactionView { amount: amount@, installments, requested_at },
                        *final(cursor) as int,
                    ),
                )
                &&& -100_000_000_000 < requested_at.total_seconds < 1_000_000_000_000
            },
            None => transaction_part(body@, *old(cursor) as int) is None,
        },
{
    enter_object(body, cursor)?;
    let amount = decimal_value(body, cursor)?;
    let installments: u32 = u32_value(body, cursor)?;
    let requested_at = moment_value(body, cursor)?;
    Some((amount, installments, requested_at))
}

/// Reads the customer.
fn scan_customer(body: &[u8], cursor: &mut usize) -> (part: Option<(Decimal, u32, [u16; 16])>)
    requires
        *old(cursor) <= body@.len(),
    ensures
        *final(cursor) <= body@.len(),
        match part {
            Some((avg_amount, tx_count_24h, known_merchants)) => customer_part(
                body@,
                *old(cursor) as int,
            ) == Some(
                (
                    CustomerView {
                        avg_amount: avg_amount@,
                        tx_count_24h,
                        known_merchants: known_merchants@,
                    },
                    *final(cursor) as int,
                ),
            ),
            None => customer_part(body@, *old(cursor) as int) is None,
        },
{
    enter_object(body, cursor)?;
    let avg_amount = decimal_value(body, cursor)?;
    let tx_count_24h: u32 = u32_value(body, cursor)?;
    *cursor = next_value(body, *cursor)?;
    let known_merchants = scan_known_merchants(body, cursor)?;
    Some((avg_amount, tx_count_24h, known_merchants))
}

/// Reads the merchant.
fn scan_merchant(body: &[u8], cursor: &mut usize) -> (part: Option<(u16, Single, Decimal)>)
    requires
        *old(cursor) <= body@.len(),
    ensures
        *final(cursor) <= body@.len(),
        match part {
            Some((id, risk, avg_amount)) => merchant_part(body@, *old(cursor) as int) == Some(
                (MerchantView { id, risk, avg_amount: avg_amount@ }, *final(cursor) as int),
            ),
            None => merchant_part(body@, *old(cursor) as int) is None,
        },
{
    enter_object(body, cursor)?;
    *cursor = next_value(body, *cursor)?;
    let id: u16 = scan_merchant_code(body, cursor)?;
    *cursor = next_value(body, *cursor)?;
    let risk = scan_mcc_risk(body, cursor)?;
    let avg_amount = decimal_value(body, cursor)?;
    Some((id, risk, avg_amount))
}

/// Reads the terminal.
fn scan_terminal(body: &[u8], cursor: &mut usize) -> (part: Option<(bool, bool, Decimal)>)
    requires
        *old(cursor) <= body@.len(),
    ensures
        *final(cursor) <= body@.len(),
        match part {
            Some((is_online, card_present, km_from_home)) => terminal_part(
                body@,
                *old(cursor) as int,
            ) == Some(
                (
                    TerminalView { is_online, card_present, km_from_home: km_from_home@ },
                    *final(cursor) as int,
                ),
            ),
            None => terminal_part(body@, *old(cursor) as int) is None,
        },
{
    enter_object(body, cursor)?;
    let is_online: bool = bool_value(body, cursor)?;
    let card_present: bool = bool_value(body, cursor)?;
    let km_from_home = decimal_value(body, cursor)?;
    Some((is_online, card_present, km_from_home))
}

/// Reads the last transaction, or `null`.
fn scan_last(body: &[u8], at: usize) -> (part: Option<Option<ScannedLast>>)
    requires
        at <= body@.len(),
    ensures
        match part {
            Some(Some(last)) => last_part(body@, at as int) == Some(Some(last@))
                && -100_000_000_000 < last.timestamp.total_seconds < 1_000_000_000_000,
            Some(None) => last_part(body@, at as int) == Some(None::<LastView>),
            None => last_part(body@, at as int) is None,
        },
{
    let mut cursor: usize = next_value(body, at)?;
    cursor = skip_space(body, cursor);
    if is_null(body, cursor) {
        return Some(None);
    }
    skip_object_start(body, &mut cursor);
    let timestamp = moment_value(body, &mut cursor)?;
    let km_from_current = decimal_value(body, &mut cursor)?;
    Some(Some(ScannedLast { timestamp, km_from_current }))
}

/// Reads a request whose members stand in the expected order. The names of the members are not
/// looked at, nor is anything between the values.
pub fn vectorize_manual(body: &[u8]) -> (request: Option<Scanned>)
    ensures
        match request {
            Some(request) => scanned(body@) == Some(request@) && request.is_timely(),
            None => scanned(body@) is None,
        },
{
    let mut cursor: usize = next_value(body, 0)?;
    scan_json_string(body, &mut cursor)?;
    let (amount, installments, requested_at) = scan_transaction(body, &mut cursor)?;
    let (customer_avg_amount, tx_count_24h, known_merchants) = scan_customer(body, &mut cursor)?;
    let (merchant_id, mcc_risk, merchant_avg_amount) = scan_merchant(body, &mut cursor)?;
    let (is_online, card_present, km_from_home) = scan_terminal(body, &mut cursor)?;
    let last_transaction = scan_last(body, cursor)?;
    Some(
        Scanned {
            amount,
            installments,
            requested_at,
            customer_avg_amount,
            tx_count_24h,
            known_merchants,
            merchant_id,
            mcc_risk,
            merchant_avg_amount,
            is_online,
            card_present,
            km_from_home,
            last_transaction,
        },
    )
}

/// Whole minutes from one moment to a later one; 0 where the latter is not later.
pub open spec fn minutes_between(earlier: Timestamp, later: Timestamp) -> int {
    if later.total_seconds > earlier.total_seconds {
        (later.total_seconds - earlier.total_seconds) / 60
    } else {
        0
    }
}

/// The seconds between the two moments fit 64 bits.
pub open spec fn gap_fits(earlier: Timestamp, later: Timestamp) -> bool {
    i64::MIN <= later.total_seconds - earlier.total_seconds <= i64::MAX
}

/// Whole minutes from one moment to a later one; 0 where the latter is not later.
pub fn elapsed_minutes(earlier: Timestamp, later: Timestamp) -> (minutes: i64)
    requires
        gap_fits(earlier, later),
    ensures
        minutes == minutes_between(earlier, later),
{
    let seconds: i64 = later.total_seconds - earlier.total_seconds;
    if seconds > 0 {
        seconds / 60
    } else {
        0
    }
}

/// What is known of the customer's last transaction.
#[derive(Clone, Copy, Debug, PartialEq, Eq, Structural)]
pub struct LastFacts {
    pub minutes: i64,
    pub km: Single,
}

/// What the vector is made of.
#[derive(Clone, Copy, Debug, PartialEq, Eq, Structural)]
pub struct Facts {
    pub amount: Single,
    pub installments: u32,
    pub customer_avg_amount: Single,
    pub requested_at: Timestamp,
    pub last: Option<LastFacts>,
    pub km_from_home: Single,
    pub tx_count_24h: u32,
    pub is_online: bool,
    pub card_present: bool,
    pub known_merchant: bool,
    pub mcc_risk: Single,
    pub merchant_avg_amount: Single,
}

/// A coordinate of the vector, in single precision.
#[derive(Clone, Copy, Debug, PartialEq, Eq, Structural)]
pub enum Feature {
    /// `value / scale`, clamped to the range from 0 to 1.
    Share { value: Single, scale: u32 },
    /// `count / scale`, clamped to the range from 0 to 1.
    CountShare { count: i64, scale: u32 },
    /// `part / scale`, as it is.
    Fraction { part: u8, scale: u32 },
    /// `(amount / average) / 10`, clamped to the range from 0 to 1.
    Ratio { amount: Single, average: Single },
    /// The number itself.
    Fixed { value: Single },
}

/// The number with the bits, as it is.
pub open spec fn fixed(bits: u32) -> Feature {
    Feature::Fixed { value: Single { bits } }
}

/// 1 for what holds, 0 for what does not.
pub open spec fn flag(holds: bool) -> Feature {
    if holds {
        fixed(ONE_BITS)
    } else {
        fixed(ZERO_BITS)
    }
}

/// The amount against the customer's average. Where there is no average above 0, any amount above
/// 0 counts as high.
pub open spec fn amount_feature(amount: Single, average: Single) -> Feature {
    let zero = Single { bits: ZERO_BITS };
    if average.le(zero) {
        if amount.le(zero) {
            fixed(ZERO_BITS)
        } else {
            fixed(ONE_BITS)
        }
    } else {
        Feature::Ratio { amount, average }
    }
}

/// The vector's coordinates, in their order.
pub open spec fn features(facts: Facts) -> Seq<Feature> {
    seq![
        Feature::Share { value: facts.amount, scale: 10_000 },
        Feature::CountShare { count: facts.installments as i64, scale: 12 },
        amount_feature(facts.amount, facts.customer_avg_amount),
        Feature::Fraction { part: facts.requested_at.hour, scale: 23 },
        Feature::Fraction { part: facts.requested_at.weekday_monday0, scale: 6 },
        match facts.last {
            Some(last) => Feature::CountShare { count: last.minutes, scale: 1440 },
            None => fixed(MINUS_ONE_BITS),
        },
        match facts.last {
            Some(last) => Feature::Share { value: last.km, scale: 1000 },
            None => fixed(MINUS_ONE_BITS),
        },
        Feature::Share { value: facts.km_from_home, scale: 1000 },
        Feature::CountShare { count: facts.tx_count_24h as i64, scale: 20 },
        flag(facts.is_online),
        flag(facts.card_present),
        flag(!facts.known_merchant),
        Feature::Fixed { value: facts.mcc_risk },
        Feature::Share { value: facts.merchant_avg_amount, scale: 10_000 },
    ]
}

fn to_fixed(bits: u32) -> (feature: Feature)
    ensures
        feature == fixed(bits),
{
    Feature::Fixed { value: Single::from_bits(bits) }
}

fn to_flag(holds: bool) -> (feature: Feature)
    ensures
        feature == flag(holds),
{
    if holds {
        to_fixed(ONE_BITS)
    } else {
        to_fixed(ZERO_BITS)
    }
}

/// The vector's coordinates.
pub fn lay_out(facts: &Facts) -> (vector: [Feature; DIMENSIONS])
    ensures
        vector@ == features(*facts),
{
    let zero = Single::from_bits(ZERO_BITS);
    let amount_vs_avg = if facts.customer_avg_amount.at_most(zero) {
        if facts.amount.at_most(zero) {
            to_fixed(ZERO_BITS)
        } else {
            to_fixed(ONE_BITS)
        }
    } else {
        Feature::Ratio { amount: facts.amount, average: facts.customer_avg_amount }
    };
    let (minutes_since_last, km_from_last) = match facts.last {
        Some(last) => (
            Feature::CountShare { count: last.minutes, scale: 1440 },
            Feature::Share { value: last.km, scale: 1000 },
        ),
        None => (to_fixed(MINUS_ONE_BITS), to_fixed(MINUS_ONE_BITS)),
    };
    let vector = [
        Feature::Share { value: facts.amount, scale: 10_000 },
        Feature::CountShare { count: facts.installments as i64, scale: 12 },
        amount_vs_avg,
        Feature::Fraction { part: facts.requested_at.hour, scale: 23 },
        Feature::Fraction { part: facts.requested_at.weekday_monday0, scale: 6 },
        minutes_since_last,
        km_from_last,
        Feature::Share { value: facts.km_from_home, scale: 1000 },
        Feature::CountShare { count: facts.tx_count_24h as i64, scale: 20 },
        to_flag(facts.is_online),
        to_flag(facts.card_present),
        to_flag(!facts.known_merchant),
        Feature::Fixed { value: facts.mcc_risk },
        Feature::Share { value: facts.merchant_avg_amount, scale: 10_000 },
    ];
    assert(vector@ =~= features(*facts));
    vector
}

/// The values of the numbers in a [`Scanned`], in single precision.
#[derive(Clone, Copy, Debug)]
pub struct Amounts {
    pub amount: Single,
    pub customer_avg_amount: Single,
    pub merchant_avg_amount: Single,
    pub km_from_home: Single,
    /// Of no account where there was no last transaction.
    pub km_from_last: Single,
}

impl Scanned {
    /// The time since the last transaction can be counted.
    pub open spec fn is_timely(&self) -> bool {
        self.last_transaction matches Some(last) ==> gap_fits(last.timestamp, self.requested_at)
    }

    /// What the vector is made of, given what the numbers are worth.
    pub open spec fn facts_with(&self, amounts: Amounts) -> Facts {
        Facts {
            amount: amounts.amount,
            installments: self.installments,
            customer_avg_amount: amounts.customer_avg_amount,
            requested_at: self.requested_at,
            last: match self.last_transaction {
                Some(last) => Some(
                    LastFacts {
                        minutes: minutes_between(last.timestamp, self.requested_at) as i64,
                        km: amounts.km_from_last,
                    },
                ),
                None => None,
            },
            km_from_home: amounts.km_from_home,
            tx_count_24h: self.tx_count_24h,
            is_online: self.is_online,
            card_present: self.card_present,
            known_merchant: self.known_merchants@.contains(self.merchant_id),
            mcc_risk: self.mcc_risk,
            merchant_avg_amount: amounts.merchant_avg_amount,
        }
    }

    /// What the vector is made of, given what the numbers are worth.
    pub fn facts(&self, amounts: &Amounts) -> (facts: Facts)
        requires
            self.is_timely(),
        ensures
            facts == self.facts_with(*amounts),
    {
        let last = match &self.last_transaction {
            Some(last) => Some(
                LastFacts {
                    minutes: elapsed_minutes(last.timestamp, self.requested_at),
                    km: amounts.km_from_last,
                },
            ),
            None => None,
        };
        Facts {
            amount: amounts.amount,
            installments: self.installments,
            customer_avg_amount: amounts.customer_avg_amount,
            requested_at: self.requested_at,
            last,
            km_from_home: amounts.km_from_home,
            tx_count_24h: self.tx_count_24h,
            is_online: self.is_online,
            card_present: self.card_present,
            known_merchant: knows(&self.known_merchants, self.merchant_id),
            mcc_risk: self.mcc_risk,
            merchant_avg_amount: amounts.merchant_avg_amount,
        }
    }
}

/// Whether the code is among the codes.
fn knows(codes: &[u16; 16], code: u16) -> (answer: bool)
    ensures
        answer == codes@.contains(code),
{
    let mut at: usize = 0;
    while at < 16
        invariant
            at <= 16,
            forall|i: int| 0 <= i < at ==> #[trigger] codes@[i] != code,
        decreases 16 - at,
    {
        if codes[at] == code {
            assert(codes@[at as int] == code);
            return true;
        }
        at = at + 1;
    }
    false
}

/// A transaction of a request.
pub struct Transaction {
    pub amount: Single,
    pub installments: u32,
    pub requested_at: String,
}

/// The customer of a request.
pub struct Customer {
    pub avg_amount: Single,
    pub tx_count_24h: u32,
    pub known_merchants: Vec<String>,
}

/// The merchant of a request.
pub struct Merchant {
    pub id: String,
    pub mcc: String,
    pub avg_amount: Single,
}

/// The terminal of a request.
pub struct Terminal {
    pub is_online: bool,
    pub card_present: bool,
    pub km_from_home: Single,
}

/// The last transaction of a request.
pub struct LastTransaction {
    pub timestamp: String,
    pub km_from_current: Single,
}

/// A request, member by member.
pub struct Payload {
    pub transaction: Transaction,
    pub customer: Customer,
    pub merchant: Merchant,
    pub terminal: Terminal,
    pub last_transaction: Option<LastTransaction>,
}

impl Payload {
    /// The moment of the transaction.
    pub open spec fn requested(&self) -> Option<Timestamp> {
        moment(vstd::utf8::encode_utf8(self.transaction.requested_at@))
    }

    /// Whether the customer knows the merchant.
    pub open spec fn is_known(&self) -> bool {
        exists|i: int|
            0 <= i < self.customer.known_merchants@.len()
                && #[trigger] self.customer.known_merchants@[i]@ == self.merchant.id@
    }

    /// What is known of the last transaction, if its moment can be read.
    pub open spec fn last_facts(&self, requested: Timestamp) -> Option<Option<LastFacts>> {
        match self.last_transaction {
            Some(last) => match moment(vstd::utf8::encode_utf8(last.timestamp@)) {
                Some(earlier) => Some(
                    Some(
                        LastFacts {
                            minutes: minutes_between(earlier, requested) as i64,
                            km: last.km_from_current,
                        },
                    ),
                ),
                None => None,
            },
            None => Some(None),
        }
    }

    /// What the vector is made of, if the moments can be read.
    pub open spec fn facts(&self) -> Option<Facts> {
        match self.requested() {
            Some(requested) => match self.last_facts(requested) {
                Some(last) => Some(
                    Facts {
                        amount: self.transaction.amount,
                        installments: self.transaction.installments,
                        customer_avg_amount: self.customer.avg_amount,
                        requested_at: requested,
                        last,
                        km_from_home: self.terminal.km_from_home,
                        tx_count_24h: self.customer.tx_count_24h,
                        is_online: self.terminal.is_online,
                        card_present: self.terminal.card_present,
                        known_merchant: self.is_known(),
                        mcc_risk: category_risk(vstd::utf8::encode_utf8(self.merchant.mcc@)),
                        merchant_avg_amount: self.merchant.avg_amount,
                    },
                ),
                None => None,
            },
            None => None,
        }
    }

    /// Whether the customer knows the merchant.
    fn knows_merchant(&self) -> (answer: bool)
        ensures
            answer == self.is_known(),
    {
        let known = &self.customer.known_merchants;
        let mut at: usize = 0;
        while at < known.len()
            invariant
                *known == self.customer.known_merchants,
                at <= known.len(),
                forall|i: int| 0 <= i < at ==> #[trigger] known@[i]@ != self.merchant.id@,
            decreases known.len() - at,
        {
            if same_text(known[at].as_str(), self.merchant.id.as_str()) {
                return true;
            }
            at = at + 1;
        }
        false
    }
}

/// The risk of a merchant category code.
pub fn mcc_risk(mcc: &str) -> (risk: Single)
    ensures
        risk == category_risk(vstd::utf8::encode_utf8(mcc@)),
{
    risk_of(mcc.as_bytes())
}

/// The vector's coordinates of a request that was read member by member.
pub fn vectorize_serde(payload: &Payload) -> (vector: Option<[Feature; DIMENSIONS]>)
    ensures
        match vector {
            Some(vector) => payload.facts() matches Some(facts) && vector@ == features(facts),
            None => payload.facts() is None,
        },
{
    let requested = parse_timestamp(payload.transaction.requested_at.as_str())?;
    let last = match &payload.last_transaction {
        Some(last) => {
            let earlier = parse_timestamp(last.timestamp.as_str())?;
            Some(
                LastFacts {
                    minutes: elapsed_minutes(earlier, requested),
                    km: last.km_from_current,
                },
            )
        },
        None => None,
    };
    let facts = Facts {
        amount: payload.transaction.amount,
        installments: payload.transaction.installments,
        customer_avg_amount: payload.customer.avg_amount,
        requested_at: requested,
        last,
        km_from_home: payload.terminal.km_from_home,
        tx_count_24h: payload.customer.tx_count_24h,
        is_online: payload.terminal.is_online,
        card_present: payload.terminal.card_present,
        known_merchant: payload.knows_merchant(),
        mcc_risk: mcc_risk(payload.merchant.mcc.as_str()),
        merchant_avg_amount: payload.merchant.avg_amount,
    };
    Some(lay_out(&facts))
}

/// The minutes between two moments are the whole ones: as many as fit into the seconds between
/// them, and none where the later moment does not come later. They never decrease as the later
/// moment moves on or the earlier one moves back, and a day or more is at least 1440 of them.
pub proof fn law_minutes_are_whole_and_all_counted(
    earlier: Timestamp,
    later: Timestamp,
    even_earlier: Timestamp,
    even_later: Timestamp,
)
    ensures
        later.total_seconds <= earlier.total_seconds ==> minutes_between(earlier, later) == 0,
        later.total_seconds > earlier.total_seconds ==> 60 * minutes_between(earlier, later)
            <= later.total_seconds - earlier.total_seconds < 60 * minutes_between(earlier, later)
            + 60,
        even_later.total_seconds >= later.total_seconds && even_earlier.total_seconds
            <= earlier.total_seconds ==> minutes_between(even_earlier, even_later)
            >= minutes_between(earlier, later),
        later.total_seconds - earlier.total_seconds >= 86_400 ==> minutes_between(earlier, later)
            >= 1440,
{
}

/// What each coordinate of the vector is made of. The bits 0x3f80_0000 are 1, 0 are 0 and
/// 0xbf80_0000 are -1.
pub proof fn law_coordinates_are_made_of_these_facts(facts: Facts)
    ensures
        ({
            let vector = features(facts);
            let zero = Feature::Fixed { value: Single { bits: 0 } };
            let one = Feature::Fixed { value: Single { bits: 0x3f80_0000 } };
            let none = Feature::Fixed { value: Single { bits: 0xbf80_0000 } };
            &&& vector.len() == 14
            &&& vector[0] == Feature::Share { value: facts.amount, scale: 10_000 }
            &&& vector[1] matches Feature::CountShare { count, scale } && count
                == facts.installments && scale == 12
            &&& vector[3] == Feature::Fraction { part: facts.requested_at.hour, scale: 23 }
            &&& vector[4] == Feature::Fraction {
                part: facts.requested_at.weekday_monday0,
                scale: 6,
            }
            &&& facts.last is None ==> vector[5] == none && vector[6] == none
            &&& facts.last matches Some(last) ==> vector[5] == (Feature::CountShare {
                count: last.minutes,
                scale: 1440,
            }) && vector[6] == (Feature::Share { value: last.km, scale: 1000 })
            &&& vector[7] == Feature::Share { value: facts.km_from_home, scale: 1000 }
            &&& vector[8] matches Feature::CountShare { count, scale } && count
                == facts.tx_count_24h && scale == 20
            &&& vector[9] == if facts.is_online {
                one
            } else {
                zero
            }
            &&& vector[10] == if facts.card_present {
                one
            } else {
                zero
            }
            &&& vector[11] == if facts.known_merchant {
                zero
            } else {
                one
            }
            &&& vector[12] == Feature::Fixed { value: facts.mcc_risk }
            &&& vector[13] == Feature::Share { value: facts.merchant_avg_amount, scale: 10_000 }
        }),
{
}

/// The third coordinate sets the amount against the customer's average where that is above 0, or no
/// number; where it is not, it is 1 for an amount above 0, or one that is no number, and 0 for any
/// other. By the bits, a number that is not above 0 is 0 or has its sign set.
pub proof fn law_amounts_are_set_against_the_average(facts: Facts)
    ensures
        ({
            let average = facts.customer_avg_amount.bits;
            let amount = facts.amount.bits;
            let no_average = average == 0 || 0x8000_0000 <= average <= 0xff80_0000;
            let no_amount = amount == 0 || 0x8000_0000 <= amount <= 0xff80_0000;
            &&& !no_average ==> features(facts)[2] == (Feature::Ratio {
                amount: facts.amount,
                average: facts.customer_avg_amount,
            })
            &&& no_average && no_amount ==> features(facts)[2] == (Feature::Fixed {
                value: Single { bits: 0 },
            })
            &&& no_average && !no_amount ==> features(facts)[2] == (Feature::Fixed {
                value: Single { bits: 0x3f80_0000 },
            })
        }),
{
}

/// Facts that differ in one point only make vectors that differ in the coordinates of that point
/// only: the last transaction in the sixth and seventh, whether the merchant is known in the
/// twelfth.
pub proof fn law_coordinates_do_not_mix(facts: Facts, last: Option<LastFacts>, known: bool, i: int)
    requires
        0 <= i < 14,
    ensures
        i != 5 && i != 6 ==> features(Facts { last, ..facts })[i] == features(facts)[i],
        i != 11 ==> features(Facts { known_merchant: known, ..facts })[i] == features(facts)[i],
        features(Facts { last, ..facts })[11] == features(facts)[11],
        features(Facts { known_merchant: true, ..facts })[11] != features(
            Facts { known_merchant: false, ..facts },
        )[11],
{
}

/// The facts of a scanned request are what it holds, with its numbers at their values: the merchant
/// is known where one of the 16 slots holds its code, and the last transaction counts by the time
/// since and its distance, where there was one.
pub proof fn law_scanned_requests_give_their_facts(request: &Scanned, amounts: Amounts)
    requires
        request.is_timely(),
    ensures
        ({
            let facts = request.facts_with(amounts);
            &&& facts.amount == amounts.amount
            &&& facts.installments == request.installments
            &&& facts.customer_avg_amount == amounts.customer_avg_amount
            &&& facts.requested_at == request.requested_at
            &&& facts.km_from_home == amounts.km_from_home
            &&& facts.tx_count_24h == request.tx_count_24h
            &&& facts.is_online == request.is_online
            &&& facts.card_present == request.card_present
            &&& facts.known_merchant <==> exists|i: int|
                0 <= i < 16 && #[trigger] request.known_merchants@[i] == request.merchant_id
            &&& facts.mcc_risk == request.mcc_risk
            &&& facts.merchant_avg_amount == amounts.merchant_avg_amount
            &&& request.last_transaction is None <==> facts.last is None
            &&& request.last_transaction matches Some(last) ==> (facts.last matches Some(fact)
                && fact.km == amounts.km_from_last && fact.minutes >= 0 && (
            request.requested_at.total_seconds > last.timestamp.total_seconds ==> 60 * fact.minutes
                <= request.requested_at.total_seconds - last.timestamp.total_seconds < 60
                * fact.minutes + 60) && (request.requested_at.total_seconds
                <= last.timestamp.total_seconds ==> fact.minutes == 0))
        }),
{
    let slots = request.known_merchants@;
    if slots.contains(request.merchant_id) {
        let i = choose|i: int| 0 <= i < slots.len() && slots[i] == request.merchant_id;
        assert(slots[i] == request.merchant_id);
    }
}

/// The facts of a payload are its members: the merchant is known where one of the known ids is its
/// own, and the last transaction counts by the time since and its distance, where there was one. A
/// payload whose moments cannot be read has none.
pub proof fn law_payloads_give_their_facts(payload: &Payload)
    ensures
        ({
            let requested = moment(vstd::utf8::encode_utf8(payload.transaction.requested_at@));
            &&& requested is None ==> payload.facts() is None
            &&& payload.last_transaction matches Some(last) ==> (moment(
                vstd::utf8::encode_utf8(last.timestamp@),
            ) is None ==> payload.facts() is None)
            &&& requested is Some && payload.last_transaction is None ==> (
            payload.facts() matches Some(facts) && facts.last is None)
            &&& payload.facts() matches Some(facts) ==> {
                &&& facts.amount == payload.transaction.amount
                &&& facts.installments == payload.transaction.installments
                &&& facts.customer_avg_amount == payload.customer.avg_amount
                &&& Some(facts.requested_at) == requested
                &&& facts.km_from_home == payload.terminal.km_from_home
                &&& facts.tx_count_24h == payload.customer.tx_count_24h
                &&& facts.is_online == payload.terminal.is_online
                &&& facts.card_present == payload.terminal.card_present
                &&& facts.known_merchant <==> exists|i: int|
                    0 <= i < payload.customer.known_merchants@.len()
                        && #[trigger] payload.customer.known_merchants@[i]@ == payload.merchant.id@
                &&& facts.mcc_risk == category_risk(vstd::utf8::encode_utf8(payload.merchant.mcc@))
                &&& facts.merchant_avg_amount == payload.merchant.avg_amount
            }
        }),
{
}

/// With both moments read, a payload's last transaction counts by the whole minutes since and its
/// distance.
pub proof fn law_payloads_count_the_time_since(
    payload: &Payload,
    last: LastTransaction,
    earlier: Timestamp,
    later: Timestamp,
)
    requires
        payload.last_transaction == Some(last),
        moment(vstd::utf8::encode_utf8(payload.transaction.requested_at@)) == Some(later),
        moment(vstd::utf8::encode_utf8(last.timestamp@)) == Some(earlier),
        gap_fits(earlier, later),
    ensures
        payload.facts() matches Some(facts) && facts.last matches Some(fact) && fact.km
            == last.km_from_current && (later.total_seconds > earlier.total_seconds ==> 60
            * fact.minutes <= later.total_seconds - earlier.total_seconds < 60 * fact.minutes + 60)
            && (later.total_seconds <= earlier.total_seconds ==> fact.minutes == 0),
{
}

/// A value is read behind the next colon: nothing is where there is none, or what stands there is
/// not the value that is wanted.
pub proof fn law_values_are_read_behind_colons(body: Seq<u8>, at: int, start: int)
    ensures
        value_start(body, at) is None ==> {
            &&& next_string(body, at) is None
            &&& next_decimal(body, at) is None
            &&& next_u32(body, at) is None
            &&& next_bool(body, at) is None
            &&& next_moment(body, at) is None
            &&& next_merchants(body, at) is None
            &&& next_merchant(body, at) is None
            &&& next_risk(body, at) is None
            &&& object_start(body, at) is None
        },
        value_start(body, at) == Some(start) ==> {
            &&& next_string(body, at) is Some <==> json_string(body, start).0 is Some
            &&& next_string(body, at) matches Some((value, end)) ==> json_string(body, start) == (
                Some(value),
                end,
            )
            &&& next_decimal(body, at) is Some <==> json_decimal(body, start).0 is Some
            &&& next_decimal(body, at) matches Some((value, end)) ==> json_decimal(body, start) == (
                Some(value),
                end,
            )
            &&& next_u32(body, at) is Some <==> json_u32(body, start).0 is Some
            &&& next_u32(body, at) matches Some((value, end)) ==> json_u32(body, start) == (
                Some(value),
                end,
            )
            &&& next_bool(body, at) is Some <==> json_bool(body, start).0 is Some
            &&& next_bool(body, at) matches Some((value, end)) ==> json_bool(body, start) == (
                Some(value),
                end,
            )
            &&& next_moment(body, at) is Some <==> json_moment(body, start).0 is Some
            &&& next_moment(body, at) matches Some((value, end)) ==> json_moment(body, start) == (
                Some(value),
                end,
            )
            &&& next_merchants(body, at) is Some <==> json_merchants(body, start).0 is Some
            &&& next_merchants(body, at) matches Some((value, end)) ==> json_merchants(body, start)
                == (Some(value), end)
            &&& next_merchant(body, at) is Some <==> json_merchant(body, start).0 is Some
            &&& next_merchant(body, at) matches Some((value, end)) ==> json_merchant(body, start)
                == (Some(value), end)
            &&& next_risk(body, at) is Some <==> json_risk(body, start).0 is Some
            &&& next_risk(body, at) matches Some((value, end)) ==> json_risk(body, start) == (
                Some(value),
                end,
            )
            &&& object_start(body, at) == Some(past_brace(body, start))
        },
{
}

/// A part of a request is read where each of its values is, one behind the other, and not
/// otherwise.
pub proof fn law_parts_need_each_of_their_values(body: Seq<u8>, at: int)
    ensures
        object_start(body, at) is None ==> transaction_part(body, at) is None && customer_part(
            body,
            at,
        ) is None && merchant_part(body, at) is None && terminal_part(body, at) is None,
        object_start(body, at) matches Some(start) ==> {
            let number = next_decimal(body, start);
            let id = next_merchant(body, start);
            let online = next_bool(body, start);
            &&& number is None ==> transaction_part(body, at) is None && customer_part(body, at)
                is None
            &&& id is None ==> merchant_part(body, at) is None
            &&& online is None ==> terminal_part(body, at) is None
            &&& number matches Some((amount, end)) ==> {
                let count = next_u32(body, end);
                &&& count is None ==> transaction_part(body, at) is None && customer_part(body, at)
                    is None
                &&& count matches Some((read, end)) ==> {
                    &&& transaction_part(body, at) is Some <==> next_moment(body, end) is Some
                    &&& transaction_part(body, at) matches Some((part, stop)) ==> part.amount
                        == amount && part.installments == read && next_moment(body, end) == Some(
                        (part.requested_at, stop),
                    )
                    &&& customer_part(body, at) is Some <==> next_merchants(body, end) is Some
                    &&& customer_part(body, at) matches Some((part, stop)) ==> part.avg_amount
                        == amount && part.tx_count_24h == read && (next_merchants(
                        body,
                        end,
                    ) matches Some((codes, last)) && part.known_merchants == first_codes(codes)
                        && stop == last)
                }
            }
            &&& id matches Some((code, end)) ==> {
                let risk = next_risk(body, end);
                &&& risk is None ==> merchant_part(body, at) is None
                &&& risk matches Some((read, end)) ==> {
                    &&& merchant_part(body, at) is Some <==> next_decimal(body, end) is Some
                    &&& merchant_part(body, at) matches Some((part, stop)) ==> part.id == code
                        && part.risk == read && next_decimal(body, end) == Some(
                        (part.avg_amount, stop),
                    )
                }
            }
            &&& online matches Some((first, end)) ==> {
                let present = next_bool(body, end);
                &&& present is None ==> terminal_part(body, at) is None
                &&& present matches Some((second, end)) ==> {
                    &&& terminal_part(body, at) is Some <==> next_decimal(body, end) is Some
                    &&& terminal_part(body, at) matches Some((part, stop)) ==> part.is_online
                        == first && part.card_present == second && next_decimal(body, end) == Some(
                        (part.km_from_home, stop),
                    )
                }
            }
        },
{
}

/// The last transaction is none where `null` stands, and otherwise its moment and its distance,
/// both of them.
pub proof fn law_last_transactions_are_null_or_whole(body: Seq<u8>, at: int, start: int)
    ensures
        value_start(body, at) is None ==> last_part(body, at) is None,
        value_start(body, at) == Some(start) ==> {
            let first = past_space(body, start);
            let is_null = 0 <= first && first + 4 <= body.len() && body.subrange(first, first + 4)
                == seq![0x6eu8, 0x75, 0x6c, 0x6c];
            let moment = next_moment(body, past_brace(body, first));
            &&& is_null ==> last_part(body, at) == Some(None::<LastView>)
            &&& !is_null && moment is None ==> last_part(body, at) is None
            &&& !is_null ==> (moment matches Some((read, end)) ==> {
                &&& next_decimal(body, end) is None ==> last_part(body, at) is None
                &&& next_decimal(body, end) matches Some((km, _)) ==> last_part(body, at) == Some(
                    Some(LastView { timestamp: read, km_from_current: km }),
                )
            })
        },
{
}

/// A request is read where its id and each of its five parts is, one behind the other, and not
/// otherwise.
pub proof fn law_requests_need_each_of_their_parts(body: Seq<u8>)
    ensures
        next_string(body, 0) is None ==> scanned(body) is None,
        next_string(body, 0) matches Some((_, end)) ==> {
            let transaction = transaction_part(body, end);
            &&& transaction is None ==> scanned(body) is None
            &&& transaction matches Some((a, end)) ==> {
                let customer = customer_part(body, end);
                &&& customer is None ==> scanned(body) is None
                &&& customer matches Some((b, end)) ==> {
                    let merchant = merchant_part(body, end);
                    &&& merchant is None ==> scanned(body) is None
                    &&& merchant matches Some((c, end)) ==> {
                        let terminal = terminal_part(body, end);
                        &&& terminal is None ==> scanned(body) is None
                        &&& terminal matches Some((d, end)) ==> {
                            &&& scanned(body) is Some <==> last_part(body, end) is Some
                            &&& scanned(body) matches Some(read) ==> read.transaction == a
                                && read.customer == b && read.merchant == c && read.terminal == d
                                && Some(read.last) == last_part(body, end)
                        }
                    }
                }
            }
        },
{
}

} // verus!
