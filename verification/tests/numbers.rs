use ivf_fraud::decimals::{
    BITS_0_008, BITS_0_026, BITS_0_028, BITS_0_03, BITS_0_06, BITS_0_07, BITS_0_08, BITS_0_13,
    BITS_0_15, BITS_0_18, BITS_0_2, BITS_0_22, BITS_0_24, BITS_0_25, BITS_0_29, BITS_0_3,
    BITS_0_33, BITS_0_35, BITS_0_38, BITS_0_4, BITS_0_41, BITS_0_45, BITS_0_48, BITS_0_49,
    BITS_0_5, BITS_0_53, BITS_0_55, BITS_0_56, BITS_0_59, BITS_0_7, BITS_0_75, BITS_0_76,
    BITS_0_8, BITS_0_82, BITS_0_85, BITS_0_9, BITS_0_99, BITS_MINUS_0_5,
};
use ivf_fraud::extreme::should_repair_extreme;
use ivf_fraud::single::{
    Single, INFINITY_BITS, MINUS_ONE_BITS, ONE_BITS, SIGN_BIT, ZERO_BITS,
};

fn single(value: f32) -> Single {
    Single::from_bits(value.to_bits())
}

#[test]
fn bit_patterns_are_those_of_the_decimals() {
    for (bits, value) in [
        (BITS_MINUS_0_5, -0.5f32),
        (BITS_0_008, 0.008),
        (BITS_0_026, 0.026),
        (BITS_0_028, 0.028),
        (BITS_0_03, 0.03),
        (BITS_0_06, 0.06),
        (BITS_0_07, 0.07),
        (BITS_0_08, 0.08),
        (BITS_0_13, 0.13),
        (BITS_0_15, 0.15),
        (BITS_0_18, 0.18),
        (BITS_0_2, 0.2),
        (BITS_0_22, 0.22),
        (BITS_0_24, 0.24),
        (BITS_0_25, 0.25),
        (BITS_0_29, 0.29),
        (BITS_0_3, 0.3),
        (BITS_0_33, 0.33),
        (BITS_0_35, 0.35),
        (BITS_0_38, 0.38),
        (BITS_0_4, 0.4),
        (BITS_0_41, 0.41),
        (BITS_0_45, 0.45),
        (BITS_0_48, 0.48),
        (BITS_0_49, 0.49),
        (BITS_0_5, 0.5),
        (BITS_0_53, 0.53),
        (BITS_0_55, 0.55),
        (BITS_0_56, 0.56),
        (BITS_0_59, 0.59),
        (BITS_0_7, 0.7),
        (BITS_0_75, 0.75),
        (BITS_0_76, 0.76),
        (BITS_0_8, 0.8),
        (BITS_0_82, 0.82),
        (BITS_0_85, 0.85),
        (BITS_0_9, 0.9),
        (BITS_0_99, 0.99),
        (ZERO_BITS, 0.0),
        (ONE_BITS, 1.0),
        (MINUS_ONE_BITS, -1.0),
        (INFINITY_BITS, f32::INFINITY),
        (SIGN_BIT, -0.0),
    ] {
        assert_eq!(bits, value.to_bits(), "{value}");
    }
}

#[test]
fn singles_compare_as_floats_do() {
    let values = [
        0.0f32,
        -0.0,
        1.0,
        -1.0,
        1.5,
        f32::MIN_POSITIVE,
        -f32::MIN_POSITIVE,
        f32::from_bits(1),
        f32::from_bits(0x8000_0001),
        f32::MAX,
        f32::MIN,
        f32::INFINITY,
        f32::NEG_INFINITY,
        f32::NAN,
        f32::from_bits(0xffc0_0001),
        f32::from_bits(0x7f80_0001),
        0.1,
        -0.1,
    ];
    for left in values {
        for right in values {
            assert_eq!(single(left).less_than(single(right)), left < right, "{left} {right}");
            assert_eq!(single(left).at_most(single(right)), left <= right, "{left} {right}");
            assert_eq!(single(left).at_least(single(right)), left >= right, "{left} {right}");
        }
    }
}

fn doubt(frauds: u8, vector: [f32; 14]) -> bool {
    should_repair_extreme(frauds, &vector.map(single))
}

/// The vector is doubted, but no more once a coordinate takes one of the values listed for it.
fn check_profile(frauds: u8, vector: [f32; 14], outside: &[(usize, f32)]) {
    assert!(doubt(frauds, vector));
    for other in [1, 2, 3, 4, 5 - frauds] {
        assert!(!doubt(other, vector));
    }
    for &(at, value) in outside {
        let mut moved = vector;
        moved[at] = value;
        assert!(!doubt(frauds, moved), "{at} {value}");
        moved[at] = f32::NAN;
        assert!(!doubt(frauds, moved), "{at}");
    }
}

#[test]
fn old_last_transaction_without_frauds_is_doubted() {
    let mut vector = [0.0f32; 14];
    vector[5] = 0.99;
    for (at, value) in [(0, 0.08), (1, 0.59), (2, 0.40), (6, 0.03), (7, 0.41), (8, 0.56), (13, 0.026)]
    {
        vector[at] = value;
    }
    check_profile(
        0,
        vector,
        &[
            (0, 0.079),
            (0, 0.291),
            (1, 0.249),
            (1, 0.591),
            (2, 0.399),
            (6, 0.029),
            (6, 0.291),
            (7, 0.029),
            (7, 0.411),
            (8, 0.561),
            (13, 0.0079),
            (13, 0.0261),
            (5, 0.98),
        ],
    );
}

#[test]
fn old_last_transaction_with_five_frauds_is_doubted() {
    let mut vector = [0.0f32; 14];
    vector[5] = 1.0;
    for (at, value) in [(0, 0.48), (1, 0.33), (2, 0.50), (6, 0.53), (7, 0.06), (8, 0.70), (13, 0.028)]
    {
        vector[at] = value;
    }
    check_profile(
        5,
        vector,
        &[
            (0, 0.069),
            (0, 0.481),
            (1, 0.329),
            (1, 0.761),
            (2, 0.499),
            (6, 0.069),
            (6, 0.531),
            (7, 0.059),
            (7, 0.491),
            (8, 0.399),
            (8, 0.701),
            (13, 0.0281),
        ],
    );
}

#[test]
fn no_last_transaction_and_no_frauds_is_doubted() {
    let mut vector = [0.0f32; 14];
    for (at, value) in
        [(0, 0.13), (2, 0.22), (5, -1.0), (6, -1.0), (7, 0.07), (8, 0.22), (9, 0.0), (12, 0.25)]
    {
        vector[at] = value;
    }
    check_profile(
        0,
        vector,
        &[
            (0, 0.079),
            (0, 0.131),
            (2, 0.219),
            (2, 0.381),
            (5, -0.5),
            (6, -0.5),
            (7, 0.069),
            (7, 0.131),
            (8, 0.179),
            (8, 0.221),
            (9, 0.5),
            (11, 0.5),
            (12, 0.249),
            (12, 0.501),
        ],
    );
}

#[test]
fn no_last_transaction_and_five_frauds_is_doubted() {
    let mut vector = [0.0f32; 14];
    for (at, value) in [
        (0, 0.24),
        (2, 0.90),
        (5, -1.0),
        (6, -1.0),
        (7, 0.45),
        (8, 0.45),
        (9, 0.0),
        (10, 1.0),
        (11, 1.0),
        (12, 0.75),
    ] {
        vector[at] = value;
    }
    check_profile(
        5,
        vector,
        &[
            (0, 0.239),
            (0, 0.301),
            (2, 0.819),
            (2, 0.901),
            (7, 0.349),
            (7, 0.451),
            (8, 0.449),
            (8, 0.551),
            (9, 0.5),
            (10, 0.49),
            (11, 0.49),
            (12, 0.749),
        ],
    );
}
