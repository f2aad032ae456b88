//! How wide the search goes.

use crate::text::{decimal, is_digit, lemma_decimal_grows, same_text};
use vstd::math::min;
use vstd::prelude::*;

verus! {

/// The search settings.
#[derive(Clone, Copy, Debug)]
pub struct IvfConfig {
    /// How many clusters the first look covers.
    pub fast_nprobe: u32,
    /// How many clusters the second look covers.
    pub full_nprobe: u32,
    /// Whether there is a second look at all.
    pub boundary_full: bool,
    /// Whether clusters beyond those covered are searched where their box is near enough.
    pub bbox_repair: bool,
    /// The smallest count of fraudulent neighbours that calls for a second look.
    pub repair_min: u8,
    /// The largest count of fraudulent neighbours that calls for a second look.
    pub repair_max: u8,
}

/// The value of a setting: that of the first variable of that name.
pub open spec fn setting(vars: Seq<(String, String)>, key: Seq<char>) -> Option<Seq<char>>
    decreases vars.len(),
{
    if vars.len() == 0 {
        None
    } else if vars[0].0@ == key {
        Some(vars[0].1@)
    } else {
        setting(vars.drop_first(), key)
    }
}

/// The digits behind the plus sign, if there is one.
pub open spec fn unsigned(text: Seq<u8>) -> Seq<u8> {
    if text.len() > 0 && text[0] == 0x2b {
        text.drop_first()
    } else {
        text
    }
}

/// The number that a text writes, where it fits 32 bits: digits, with or without a plus sign.
pub open spec fn number(text: Seq<char>) -> Option<u32> {
    let digits = unsigned(vstd::utf8::encode_utf8(text));
    if digits.len() > 0 && (forall|i: int| 0 <= i < digits.len() ==> is_digit(#[trigger] digits[i]))
        && decimal(digits) <= u32::MAX {
        Some(decimal(digits) as u32)
    } else {
        None
    }
}

/// The number that a setting gives; the default where it gives none.
pub open spec fn u32_setting(vars: Seq<(String, String)>, key: Seq<char>, default: u32) -> u32 {
    match setting(vars, key) {
        Some(value) => match number(value) {
            Some(value) => value,
            None => default,
        },
        None => default,
    }
}

/// Whether a setting is switched on; the default where it is missing.
pub open spec fn bool_setting(vars: Seq<(String, String)>, key: Seq<char>, default: bool) -> bool {
    match setting(vars, key) {
        Some(value) => value == "1"@ || value == "true"@ || value == "TRUE"@,
        None => default,
    }
}

/// The count, or five if it is larger.
pub open spec fn at_most_five(count: u32) -> int {
    if count < 5 {
        count as int
    } else {
        5
    }
}

/// The value of a setting: that of the first variable of that name.
fn find_setting<'a>(vars: &'a [(String, String)], key: &str) -> (value: Option<&'a str>)
    ensures
        match value {
            Some(value) => setting(vars@, key@) == Some(value@),
            None => setting(vars@, key@) is None,
        },
{
    let mut next: usize = 0;
    assert(vars@.skip(0) =~= vars@);
    while next < vars.len()
        invariant
            next <= vars.len(),
            setting(vars@, key@) == setting(vars@.skip(next as int), key@),
        decreases vars.len() - next,
    {
        if same_text(vars[next].0.as_str(), key) {
            return Some(vars[next].1.as_str());
        }
        assert(vars@.skip(next as int).drop_first() =~= vars@.skip(next + 1));
        next = next + 1;
    }
    None
}

/// The number that a text writes, where it fits 32 bits.
fn parse_number(text: &str) -> (parsed: Option<u32>)
    ensures
        parsed == number(text@),
{
    let bytes = text.as_bytes();
    let start: usize = if bytes.len() > 0 && bytes[0] == 0x2b {
        1
    } else {
        0
    };
    let digits = &bytes[start..bytes.len()];
    assert(digits@ =~= unsigned(vstd::utf8::encode_utf8(text@)));
    if digits.len() == 0 {
        return None;
    }
    let mut value: u64 = 0;
    let mut at: usize = 0;
    while at < digits.len()
        invariant
            at <= digits.len(),
            digits.len() > 0,
            digits@ == unsigned(vstd::utf8::encode_utf8(text@)),
            forall|i: int| 0 <= i < at ==> is_digit(#[trigger] digits@[i]),
            value == decimal(digits@.take(at as int)),
            value <= u32::MAX,
        decreases digits.len() - at,
    {
        let digit: u8 = digits[at];
        if digit < 0x30 || digit > 0x39 {
            assert(!is_digit(digits@[at as int]));
            return None;
        }
        assert(digits@.take(at + 1).drop_last() =~= digits@.take(at as int));
        value = value * 10 + (digit - 0x30) as u64;
        at = at + 1;
        if value > 0xffff_ffff {
            proof {
                let whole = digits@;
                if forall|i: int| 0 <= i < whole.len() ==> is_digit(#[trigger] whole[i]) {
                    lemma_decimal_grows(whole, 0, at as int, whole.len() as int);
                    assert(whole.subrange(0, at as int) =~= whole.take(at as int));
                    assert(whole.subrange(0, whole.len() as int) =~= whole);
                }
            }
            return None;
        }
    }
    assert(digits@.take(at as int) =~= digits@);
    Some(value as u32)
}

/// The number that a setting gives; the default where it gives none.
pub fn env_u32(vars: &[(String, String)], key: &str, default: u32) -> (value: u32)
    ensures
        value == u32_setting(vars@, key@, default),
{
    match find_setting(vars, key) {
        Some(text) => match parse_number(text) {
            Some(value) => value,
            None => default,
        },
        None => default,
    }
}

/// Whether a setting is switched on; the default where it is missing.
pub fn env_bool(vars: &[(String, String)], key: &str, default: bool) -> (value: bool)
    ensures
        value == bool_setting(vars@, key@, default),
{
    match find_setting(vars, key) {
        Some(text) => same_text(text, "1") || same_text(text, "true") || same_text(text, "TRUE"),
        None => default,
    }
}

/// The count, or five if it is larger.
fn cap_at_five(count: u32) -> (capped: u8)
    ensures
        capped == at_most_five(count),
{
    if count < 5 {
        count as u8
    } else {
        5
    }
}

impl IvfConfig {
    /// The settings that the variables of the environment give.
    pub fn from_env(vars: &[(String, String)]) -> (config: Self)
        ensures
            config.fast_nprobe == u32_setting(vars@, "IVF_FAST_NPROBE"@, 1),
            config.full_nprobe == u32_setting(vars@, "IVF_FULL_NPROBE"@, config.fast_nprobe),
            config.boundary_full == bool_setting(
                vars@,
                "IVF_BOUNDARY_FULL"@,
                config.full_nprobe > config.fast_nprobe,
            ),
            config.bbox_repair == bool_setting(vars@, "IVF_BBOX_REPAIR"@, true),
            config.repair_min == at_most_five(u32_setting(vars@, "IVF_REPAIR_MIN_FRAUDS"@, 2)),
            config.repair_max == at_most_five(u32_setting(vars@, "IVF_REPAIR_MAX_FRAUDS"@, 3)),
    {
        let fast_nprobe: u32 = env_u32(vars, "IVF_FAST_NPROBE", 1);
        let full_nprobe: u32 = env_u32(vars, "IVF_FULL_NPROBE", fast_nprobe);
        IvfConfig {
            fast_nprobe,
            full_nprobe,
            boundary_full: env_bool(vars, "IVF_BOUNDARY_FULL", full_nprobe > fast_nprobe),
            bbox_repair: env_bool(vars, "IVF_BBOX_REPAIR", true),
            repair_min: cap_at_five(env_u32(vars, "IVF_REPAIR_MIN_FRAUDS", 2)),
            repair_max: cap_at_five(env_u32(vars, "IVF_REPAIR_MAX_FRAUDS", 3)),
        }
    }
}

/// A setting is the value of the first variable of its name, and is missing where there is none.
pub proof fn law_first_variable_of_a_name_counts(
    vars: Seq<(String, String)>,
    key: Seq<char>,
    place: int,
)
    requires
        0 <= place <= vars.len(),
        forall|i: int| 0 <= i < place ==> (#[trigger] vars[i]).0@ != key,
    ensures
        place == vars.len() ==> setting(vars, key) is None,
        place < vars.len() && vars[place].0@ == key ==> setting(vars, key) == Some(vars[place].1@),
    decreases vars.len(),
{
    if place > 0 {
        let rest = vars.drop_first();
        assert(vars[0].0@ != key);
        assert forall|i: int| 0 <= i < place - 1 implies (#[trigger] rest[i]).0@ != key by {
            assert(rest[i] == vars[i + 1]);
        }
        if place < vars.len() {
            assert(rest[place - 1] == vars[place]);
        }
        law_first_variable_of_a_name_counts(rest, key, place - 1);
    }
}

/// A text of digits, with or without one plus sign in front, is read as the number that they write,
/// where that fits 32 bits.
pub proof fn law_numbers_are_read_from_digits(text: Seq<char>, digits: Seq<u8>)
    requires
        vstd::utf8::encode_utf8(text) == digits || vstd::utf8::encode_utf8(text) == seq![0x2bu8]
            + digits,
        forall|i: int| 0 <= i < digits.len() ==> 0x30 <= #[trigger] digits[i] <= 0x39,
    ensures
        digits.len() > 0 && decimal(digits) <= 0xffff_ffff ==> (number(text) matches Some(value)
            && value == decimal(digits)),
        digits.len() == 0 || decimal(digits) > 0xffff_ffff ==> number(text) is None,
{
    let bytes = vstd::utf8::encode_utf8(text);
    if bytes == seq![0x2bu8] + digits {
        assert(bytes[0] == 0x2b);
        assert(bytes.drop_first() =~= digits);
    } else if digits.len() > 0 {
        assert(0x30 <= digits[0] <= 0x39);
    }
    assert(unsigned(bytes) == digits);
    assert forall|i: int| 0 <= i < digits.len() implies is_digit(#[trigger] digits[i]) by {}
    lemma_decimal_grows(digits, 0, 0, digits.len() as int);
    assert(digits.subrange(0, digits.len() as int) =~= digits);
}

/// No number is read from a text that holds any other byte: anything but a digit, or a plus sign in
/// any other place than the first.
pub proof fn law_no_number_is_read_from_anything_else(text: Seq<char>, place: int)
    requires
        0 <= place < vstd::utf8::encode_utf8(text).len(),
        !(0x30 <= vstd::utf8::encode_utf8(text)[place] <= 0x39),
        place > 0 || vstd::utf8::encode_utf8(text)[0] != 0x2b,
    ensures
        number(text) is None,
{
    let bytes = vstd::utf8::encode_utf8(text);
    let digits = unsigned(bytes);
    let at = if bytes[0] == 0x2b {
        place - 1
    } else {
        place
    };
    assert(digits[at] == bytes[place]);
    assert(!is_digit(digits[at]));
}

/// A number's setting is what can be read of it, and the default in any other case; a switch is on
/// for the words `1`, `true` and `TRUE`, off for any other, and at its default where it is missing.
pub proof fn law_settings_fall_back_on_defaults(
    vars: Seq<(String, String)>,
    key: Seq<char>,
    value: Seq<char>,
    number_default: u32,
    switch_default: bool,
)
    ensures
        setting(vars, key) is None ==> u32_setting(vars, key, number_default) == number_default
            && bool_setting(vars, key, switch_default) == switch_default,
        setting(vars, key) == Some(value) ==> {
            &&& number(value) is None ==> u32_setting(vars, key, number_default) == number_default
            &&& number(value) matches Some(read) ==> u32_setting(vars, key, number_default) == read
            &&& bool_setting(vars, key, switch_default) <==> (value == "1"@ || value == "true"@
                || value == "TRUE"@)
        },
{
}

/// Limits for counts are at most five, which is as many neighbours as there are.
pub proof fn law_limits_are_at_most_five(count: u32)
    ensures
        at_most_five(count) == min(count as int, 5),
{
}

} // verus!
