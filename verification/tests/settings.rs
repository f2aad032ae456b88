use ivf_fraud::config::{env_bool, env_u32, IvfConfig};
use ivf_fraud::session::{
    brings_descriptor, control_path, receive, valid_descriptor, ControlKind, MAX_PENDING,
};

fn vars(pairs: &[(&str, &str)]) -> Vec<(String, String)> {
    pairs.iter().map(|(key, value)| (key.to_string(), value.to_string())).collect()
}

#[test]
fn defaults_hold_without_variables() {
    let config = IvfConfig::from_env(&[]);
    assert_eq!((config.fast_nprobe, config.full_nprobe), (1, 1));
    assert!(!config.boundary_full);
    assert!(config.bbox_repair);
    assert_eq!((config.repair_min, config.repair_max), (2, 3));
}

#[test]
fn variables_override_the_defaults() {
    let config = IvfConfig::from_env(&vars(&[
        ("IVF_FAST_NPROBE", "4"),
        ("IVF_FULL_NPROBE", "24"),
        ("IVF_BOUNDARY_FULL", "0"),
        ("IVF_BBOX_REPAIR", "false"),
        ("IVF_REPAIR_MIN_FRAUDS", "1"),
        ("IVF_REPAIR_MAX_FRAUDS", "900"),
    ]));
    assert_eq!((config.fast_nprobe, config.full_nprobe), (4, 24));
    assert!(!config.boundary_full);
    assert!(!config.bbox_repair);
    assert_eq!((config.repair_min, config.repair_max), (1, 5));
}

#[test]
fn second_look_is_on_where_it_is_wider() {
    let wider = IvfConfig::from_env(&vars(&[("IVF_FULL_NPROBE", "2")]));
    assert!(wider.boundary_full);
    let narrow = IvfConfig::from_env(&vars(&[("IVF_FAST_NPROBE", "8"), ("IVF_FULL_NPROBE", "2")]));
    assert!(!narrow.boundary_full);
    let follows = IvfConfig::from_env(&vars(&[("IVF_FAST_NPROBE", "8")]));
    assert_eq!(follows.full_nprobe, 8);
    assert!(!follows.boundary_full);
}

#[test]
fn numbers_are_whole_and_fit_32_bits() {
    for (value, expected) in [
        ("17", 17),
        ("+17", 17),
        ("007", 7),
        ("4294967295", u32::MAX),
        ("4294967296", 99),
        ("99999999999999999999999", 99),
        ("", 99),
        ("+", 99),
        ("++1", 99),
        ("-1", 99),
        (" 1", 99),
        ("1 ", 99),
        ("1x", 99),
        ("١", 99),
    ] {
        assert_eq!(env_u32(&vars(&[("K", value)]), "K", 99), expected, "{value}");
        assert_eq!(value.parse::<u32>().unwrap_or(99), expected, "{value}");
    }
    assert_eq!(env_u32(&vars(&[("KK", "1")]), "K", 99), 99);
}

#[test]
fn switches_are_on_for_three_words_only() {
    for (value, expected) in
        [("1", true), ("true", true), ("TRUE", true), ("True", false), ("0", false), ("", false)]
    {
        assert_eq!(env_bool(&vars(&[("K", value)]), "K", !expected), expected, "{value}");
    }
    assert!(env_bool(&[], "K", true));
    assert!(!env_bool(&[], "K", false));
}

#[test]
fn first_variable_of_a_name_counts() {
    let twice = vars(&[("A", "5"), ("K", "1"), ("K", "2")]);
    assert_eq!(env_u32(&twice, "K", 9), 1);
}

#[test]
fn connections_close_when_nothing_comes_or_too_much_is_pending() {
    let mut pending = Vec::new();
    assert!(receive(&mut pending, b"GET "));
    assert!(receive(&mut pending, b"/"));
    assert_eq!(pending, b"GET /".to_vec());
    assert!(!receive(&mut pending, b""));
    assert_eq!(pending, b"GET /".to_vec());
    let rest = vec![0u8; MAX_PENDING - 5];
    assert!(receive(&mut pending, &rest));
    assert_eq!(pending.len(), 16 * 1024);
    assert!(!receive(&mut pending, b"x"));
}

#[test]
fn descriptors_come_with_the_right_message_only() {
    let rights = ControlKind { level: 1, kind: 1 };
    let other_level = ControlKind { level: 2, kind: 1 };
    let other_kind = ControlKind { level: 1, kind: 2 };
    assert!(brings_descriptor(1, Some(rights), rights));
    assert!(!brings_descriptor(0, Some(rights), rights));
    assert!(!brings_descriptor(-1, Some(rights), rights));
    assert!(!brings_descriptor(1, None, rights));
    assert!(!brings_descriptor(1, Some(other_level), rights));
    assert!(!brings_descriptor(1, Some(other_kind), rights));
    assert_eq!(valid_descriptor(0), Some(0));
    assert_eq!(valid_descriptor(7), Some(7));
    assert_eq!(valid_descriptor(-1), None);
}

#[test]
fn control_socket_lies_beside_the_socket() {
    assert_eq!(control_path("/run/api.sock"), "/run/api.sock.ctrl");
    assert_eq!(control_path(""), ".ctrl");
}
