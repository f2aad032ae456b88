use ivf_fraud::calendar::Timestamp;
use ivf_fraud::json::Decimal;
use ivf_fraud::payload::{
    elapsed_minutes, lay_out, mcc_risk, vectorize_manual, vectorize_serde, Amounts, Customer, Facts,
    Feature, LastFacts, LastTransaction, Merchant, Payload, Scanned, Terminal, Transaction,
};
use ivf_fraud::single::Single;
use serde_json::Value;

const COMPACT: &[u8] = br#"{"id":"tx-3576980410","transaction":{"amount":384.88,"installments":3,"requested_at":"2026-03-11T20:23:35Z"},"customer":{"avg_amount":769.76,"tx_count_24h":3,"known_merchants":["MERC-009","MERC-001","MERC-001"]},"merchant":{"id":"MERC-001","mcc":"5912","avg_amount":298.95},"terminal":{"is_online":false,"card_present":true,"km_from_home":13.7090520965},"last_transaction":{"timestamp":"2026-03-11T14:58:35Z","km_from_current":18.8626479774}}"#;

fn single(value: f32) -> Single {
    Single::from_bits(value.to_bits())
}

fn number(single: Single) -> f32 {
    f32::from_bits(single.bits)
}

fn decimal_value(decimal: &Decimal) -> f32 {
    let mut value = 0f64;
    for digit in &decimal.integer {
        value = value * 10.0 + f64::from(digit - b'0');
    }
    let mut scale = 0.1f64;
    for digit in &decimal.fraction {
        value += f64::from(digit - b'0') * scale;
        scale *= 0.1;
    }
    let sign = if decimal.negative { -1.0 } else { 1.0 };
    (value * sign) as f32
}

fn feature_value(feature: &Feature) -> f32 {
    match *feature {
        Feature::Share { value, scale } => (number(value) / scale as f32).clamp(0.0, 1.0),
        Feature::CountShare { count, scale } => (count as f32 / scale as f32).clamp(0.0, 1.0),
        Feature::Fraction { part, scale } => f32::from(part) / scale as f32,
        Feature::Ratio { amount, average } => {
            ((number(amount) / number(average)) / 10.0).clamp(0.0, 1.0)
        }
        Feature::Fixed { value } => number(value),
    }
}

fn amounts_of(scanned: &Scanned) -> Amounts {
    Amounts {
        amount: single(decimal_value(&scanned.amount)),
        customer_avg_amount: single(decimal_value(&scanned.customer_avg_amount)),
        merchant_avg_amount: single(decimal_value(&scanned.merchant_avg_amount)),
        km_from_home: single(decimal_value(&scanned.km_from_home)),
        km_from_last: match &scanned.last_transaction {
            Some(last) => single(decimal_value(&last.km_from_current)),
            None => single(0.0),
        },
    }
}

fn manual_vector(body: &[u8]) -> Option<[f32; 14]> {
    let scanned = vectorize_manual(body)?;
    let facts = scanned.facts(&amounts_of(&scanned));
    Some(lay_out(&facts).map(|feature| feature_value(&feature)))
}

fn text(value: &Value) -> Option<String> {
    Some(value.as_str()?.to_string())
}

fn amount(value: &Value) -> Option<Single> {
    Some(single(value.as_f64()? as f32))
}

fn count(value: &Value) -> Option<u32> {
    u32::try_from(value.as_u64()?).ok()
}

fn payload_of(body: &[u8]) -> Option<Payload> {
    let value = serde_json::from_slice::<Value>(body).ok()?;
    let last = &value["last_transaction"];
    let mut known_merchants = Vec::new();
    for merchant in value["customer"]["known_merchants"].as_array()? {
        known_merchants.push(text(merchant)?);
    }
    Some(Payload {
        transaction: Transaction {
            amount: amount(&value["transaction"]["amount"])?,
            installments: count(&value["transaction"]["installments"])?,
            requested_at: text(&value["transaction"]["requested_at"])?,
        },
        customer: Customer {
            avg_amount: amount(&value["customer"]["avg_amount"])?,
            tx_count_24h: count(&value["customer"]["tx_count_24h"])?,
            known_merchants,
        },
        merchant: Merchant {
            id: text(&value["merchant"]["id"])?,
            mcc: text(&value["merchant"]["mcc"])?,
            avg_amount: amount(&value["merchant"]["avg_amount"])?,
        },
        terminal: Terminal {
            is_online: value["terminal"]["is_online"].as_bool()?,
            card_present: value["terminal"]["card_present"].as_bool()?,
            km_from_home: amount(&value["terminal"]["km_from_home"])?,
        },
        last_transaction: if last.is_null() {
            None
        } else {
            Some(LastTransaction {
                timestamp: text(&last["timestamp"])?,
                km_from_current: amount(&last["km_from_current"])?,
            })
        },
    })
}

fn serde_vector(body: &[u8]) -> Option<[f32; 14]> {
    let vector = vectorize_serde(&payload_of(body)?)?;
    Some(vector.map(|feature| feature_value(&feature)))
}

fn replaced(from: &str, to: &str) -> Vec<u8> {
    let body = String::from_utf8(COMPACT.to_vec()).unwrap();
    assert!(body.contains(from));
    body.replacen(from, to, 1).into_bytes()
}

#[test]
fn manual_vectorizer_matches_serde_for_compact_payload() {
    let manual = manual_vector(COMPACT).expect("manual parser should parse compact official payload");
    let serde = serde_vector(COMPACT).expect("serde parser should parse compact official payload");
    assert_eq!(manual, serde);
}

#[test]
fn compact_payload_gives_this_vector() {
    let vector = manual_vector(COMPACT).unwrap();
    assert_eq!(vector[0], 384.88f32 / 10000.0);
    assert_eq!(vector[1], 3.0f32 / 12.0);
    assert_eq!(vector[2], (384.88f32 / 769.76) / 10.0);
    assert_eq!(vector[3], 20.0f32 / 23.0);
    assert_eq!(vector[4], 2.0f32 / 6.0);
    assert_eq!(vector[5], 325.0f32 / 1440.0);
    assert_eq!(vector[6], 18.862_648f32 / 1000.0);
    assert_eq!(vector[7], 13.709_052f32 / 1000.0);
    assert_eq!(vector[8], 3.0f32 / 20.0);
    assert_eq!(vector[9..13], [0.0, 1.0, 0.0, 0.2]);
    assert_eq!(vector[13], 298.95f32 / 10000.0);
}

#[test]
fn scanned_request_holds_what_was_written() {
    let scanned = vectorize_manual(COMPACT).unwrap();
    assert!(!scanned.amount.negative);
    assert_eq!(scanned.amount.integer, b"384".to_vec());
    assert_eq!(scanned.amount.fraction, b"88".to_vec());
    assert_eq!(scanned.installments, 3);
    assert_eq!(
        scanned.requested_at,
        Timestamp { total_seconds: 1_773_260_615, hour: 20, weekday_monday0: 2 }
    );
    assert_eq!(scanned.known_merchants[0..4], [9, 1, 1, u16::MAX]);
    assert_eq!(scanned.merchant_id, 1);
    assert_eq!(scanned.mcc_risk, single(0.2));
    assert_eq!((scanned.is_online, scanned.card_present), (false, true));
    let last = scanned.last_transaction.unwrap();
    assert_eq!(last.timestamp.total_seconds, 1_773_241_115);
    assert_eq!(last.km_from_current.fraction, b"8626479774".to_vec());
}

#[test]
fn missing_last_transaction_gives_minus_one() {
    let body = replaced(
        r#"{"timestamp":"2026-03-11T14:58:35Z","km_from_current":18.8626479774}"#,
        "null",
    );
    let vector = manual_vector(&body).unwrap();
    assert_eq!(vector[5..7], [-1.0, -1.0]);
    assert_eq!(serde_vector(&body), Some(vector));
}

#[test]
fn unknown_merchant_is_flagged_by_both() {
    let body = replaced(r#""id":"MERC-001""#, r#""id":"MERC-002""#);
    assert_eq!(manual_vector(&body).unwrap()[11], 1.0);
    assert_eq!(serde_vector(&body).unwrap()[11], 1.0);
    let empty = replaced(r#"["MERC-009","MERC-001","MERC-001"]"#, "[]");
    assert_eq!(manual_vector(&empty).unwrap()[11], 1.0);
    assert_eq!(manual_vector(&empty), serde_vector(&empty));
}

#[test]
fn seventeenth_merchant_is_seen_by_one_reading_only() {
    let mut list = String::from("[");
    for code in 100..116 {
        list.push_str(&format!("\"MERC-{code}\","));
    }
    list.push_str("\"MERC-001\"]");
    let body = replaced(r#"["MERC-009","MERC-001","MERC-001"]"#, &list);
    assert_eq!(manual_vector(&body).unwrap()[11], 1.0);
    assert_eq!(serde_vector(&body).unwrap()[11], 0.0);
}

#[test]
fn sixteenth_merchant_is_seen_by_both_readings() {
    let mut list = String::from("[");
    for code in 100..115 {
        list.push_str(&format!("\"MERC-{code}\","));
    }
    list.push_str("\"MERC-001\",\"MERC-777\"]");
    let body = replaced(r#"["MERC-009","MERC-001","MERC-001"]"#, &list);
    assert_eq!(manual_vector(&body).unwrap()[11], 0.0);
    assert_eq!(manual_vector(&body), serde_vector(&body));
}

#[test]
fn only_serde_reads_what_the_scanner_refuses() {
    let escaped = replaced("tx-3576980410", "tx-\\u0041");
    assert!(vectorize_manual(&escaped).is_none());
    assert!(serde_vector(&escaped).is_some());
    let exponent = replaced("384.88", "3.8488e2");
    assert!(vectorize_manual(&exponent).is_none());
    assert!(serde_vector(&exponent).is_some());
    let named = replaced(r#""id":"MERC-001""#, r#""id":"Padaria""#);
    assert!(vectorize_manual(&named).is_none());
    assert_eq!(serde_vector(&named).unwrap()[11], 1.0);
}

#[test]
fn cut_requests_are_not_scanned() {
    let end = COMPACT.iter().rposition(|&byte| byte == b':').unwrap();
    for len in 0..=end {
        assert!(vectorize_manual(&COMPACT[..len]).is_none(), "{len}");
    }
    assert!(vectorize_manual(&COMPACT[..end + 2]).is_some());
}

#[test]
fn white_space_does_not_matter_to_the_scanner() {
    let spaced = String::from_utf8(COMPACT.to_vec()).unwrap().replace(":{", " : \n\t{ ");
    assert_eq!(manual_vector(spaced.as_bytes()), manual_vector(COMPACT));
    assert_eq!(serde_vector(spaced.as_bytes()), serde_vector(COMPACT));
}

#[test]
fn bad_moments_refuse_the_payload() {
    let mut payload = payload_of(COMPACT).unwrap();
    payload.transaction.requested_at = "2026-03-11".to_string();
    assert!(vectorize_serde(&payload).is_none());
    let mut payload = payload_of(COMPACT).unwrap();
    payload.last_transaction.as_mut().unwrap().timestamp = "2026-03-1xT14:58:35Z".to_string();
    assert!(vectorize_serde(&payload).is_none());
}

#[test]
fn elapsed_time_is_in_whole_minutes_and_not_negative() {
    let at = |total_seconds: i64| Timestamp { total_seconds, hour: 0, weekday_monday0: 0 };
    assert_eq!(elapsed_minutes(at(0), at(59)), 0);
    assert_eq!(elapsed_minutes(at(0), at(60)), 1);
    assert_eq!(elapsed_minutes(at(-61), at(60)), 2);
    assert_eq!(elapsed_minutes(at(600), at(0)), 0);
}

fn plain_facts() -> Facts {
    Facts {
        amount: single(50.0),
        installments: 6,
        customer_avg_amount: single(100.0),
        requested_at: Timestamp { total_seconds: 0, hour: 23, weekday_monday0: 6 },
        last: Some(LastFacts { minutes: 1440, km: single(500.0) }),
        km_from_home: single(250.0),
        tx_count_24h: 40,
        is_online: true,
        card_present: false,
        known_merchant: false,
        mcc_risk: single(0.85),
        merchant_avg_amount: single(-3.0),
    }
}

#[test]
fn features_name_their_operands() {
    let vector = lay_out(&plain_facts());
    assert_eq!(vector[0], Feature::Share { value: single(50.0), scale: 10_000 });
    assert_eq!(vector[1], Feature::CountShare { count: 6, scale: 12 });
    assert_eq!(vector[2], Feature::Ratio { amount: single(50.0), average: single(100.0) });
    assert_eq!(vector[3], Feature::Fraction { part: 23, scale: 23 });
    assert_eq!(vector[4], Feature::Fraction { part: 6, scale: 6 });
    assert_eq!(vector[5], Feature::CountShare { count: 1440, scale: 1440 });
    assert_eq!(vector[6], Feature::Share { value: single(500.0), scale: 1000 });
    assert_eq!(vector[7], Feature::Share { value: single(250.0), scale: 1000 });
    assert_eq!(vector[8], Feature::CountShare { count: 40, scale: 20 });
    assert_eq!(vector[9], Feature::Fixed { value: single(1.0) });
    assert_eq!(vector[10], Feature::Fixed { value: single(0.0) });
    assert_eq!(vector[11], Feature::Fixed { value: single(1.0) });
    assert_eq!(vector[12], Feature::Fixed { value: single(0.85) });
    assert_eq!(vector[13], Feature::Share { value: single(-3.0), scale: 10_000 });
    let values = vector.map(|feature| feature_value(&feature));
    assert_eq!(
        values,
        [0.005, 0.5, 0.05, 1.0, 1.0, 1.0, 0.5, 0.25, 1.0, 1.0, 0.0, 1.0, 0.85, 0.0]
    );
}

#[test]
fn amount_without_an_average_is_high_or_nothing() {
    for (amount, average, expected) in
        [(10.0, 0.0, 1.0), (0.0, 0.0, 0.0), (-1.0, -5.0, 0.0), (1.0, -0.0, 1.0)]
    {
        let mut facts = plain_facts();
        facts.amount = single(amount);
        facts.customer_avg_amount = single(average);
        assert_eq!(lay_out(&facts)[2], Feature::Fixed { value: single(expected) });
    }
}

#[test]
fn each_category_has_its_risk() {
    for (code, risk) in [
        ("5411", 0.15),
        ("5812", 0.30),
        ("5912", 0.20),
        ("5944", 0.45),
        ("7801", 0.80),
        ("7802", 0.75),
        ("7995", 0.85),
        ("4511", 0.35),
        ("5311", 0.25),
        ("5999", 0.50),
        ("0000", 0.50),
        ("", 0.50),
        ("54110", 0.50),
    ] {
        assert_eq!(mcc_risk(code), single(risk), "{code}");
    }
}

#[test]
fn written_requests_are_read_back() {
    for (seed, names) in [(1u32, ["a", "b", "c"]), (7, ["", "x y", "{,"]), (123, ["id", "\"", "n"])] {
        let mut body = String::new();
        let mut gap = |body: &mut String, at: usize, lead: &str| {
            body.push_str(lead);
            body.push_str(names[at % 3]);
            body.push(':');
        };
        let code = seed % 1000;
        gap(&mut body, 0, "{");
        body.push_str(&format!("\"tx:{seed}\""));
        gap(&mut body, 1, ",");
        body.push('{');
        gap(&mut body, 2, "");
        body.push_str(&format!("-{seed}.0{seed}"));
        gap(&mut body, 3, ",");
        body.push_str(&format!("00{seed}"));
        gap(&mut body, 4, ",");
        body.push_str("\"1999-12-31T23:59:59Z\"");
        gap(&mut body, 5, "}");
        body.push('{');
        gap(&mut body, 6, "");
        body.push_str("0");
        gap(&mut body, 7, ",");
        body.push_str("4294967295");
        gap(&mut body, 8, ",");
        body.push_str(&format!("[\"MERC-000\",\"MERC-{code:03}\"]"));
        gap(&mut body, 9, "");
        body.push('{');
        gap(&mut body, 10, "");
        body.push_str(&format!("\"MERC-{code:03}\""));
        gap(&mut body, 11, "");
        body.push_str("\"4511\"");
        gap(&mut body, 12, "");
        body.push_str("12.5");
        gap(&mut body, 13, "}");
        body.push('{');
        gap(&mut body, 14, "");
        body.push_str("true");
        gap(&mut body, 15, "");
        body.push_str("false");
        gap(&mut body, 16, "");
        body.push_str("1000");
        gap(&mut body, 17, "}");
        body.push('{');
        gap(&mut body, 18, "");
        body.push_str("\"1999-12-31T23:58:58Z\"");
        gap(&mut body, 19, "");
        body.push_str("9.75}");
        let scanned = vectorize_manual(body.as_bytes()).unwrap();
        assert!(scanned.amount.negative);
        assert_eq!(scanned.amount.integer, seed.to_string().into_bytes());
        assert_eq!(scanned.amount.fraction, format!("0{seed}").into_bytes());
        assert_eq!(scanned.installments, seed);
        assert_eq!(scanned.requested_at.hour, 23);
        assert_eq!(scanned.customer_avg_amount.integer, b"0".to_vec());
        assert_eq!(scanned.tx_count_24h, u32::MAX);
        assert_eq!(scanned.known_merchants[0..3], [0, code as u16, u16::MAX]);
        assert_eq!(u32::from(scanned.merchant_id), code);
        assert_eq!(scanned.mcc_risk, single(0.35));
        assert_eq!(scanned.merchant_avg_amount.fraction, b"5".to_vec());
        assert_eq!((scanned.is_online, scanned.card_present), (true, false));
        assert_eq!(scanned.km_from_home.integer, b"1000".to_vec());
        let last = scanned.last_transaction.as_ref().unwrap();
        assert_eq!(elapsed_minutes(last.timestamp, scanned.requested_at), 1);
        assert_eq!(last.km_from_current.fraction, b"75".to_vec());
    }
}
