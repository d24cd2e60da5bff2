use cpu_cli_controller::commands::{
    activate_cmd, deactivate_cmd, show_cmd, CoreError, CoresArgs, OptionalCoresArgs,
};
use cpu_cli_controller::cores::{
    cores_to_write, extract_core_nums, is_cpu_dir_name, status_first_char, CoreStatus,
};
use cpu_cli_controller::ranges::RangeError;

#[test]
fn activate_dedups_preserving_first_occurrence() {
    let args = OptionalCoresArgs {
        cores: Some("3,1,3,2,1".to_string()),
        no_duplicates: true,
        sort: false,
    };
    let universe = vec![0, 1, 2, 3];
    assert_eq!(activate_cmd(&args, &universe).unwrap(), vec![3, 1, 2]);
}

#[test]
fn activate_sorts_ascending() {
    let args = OptionalCoresArgs {
        cores: Some("5,3,4,3".to_string()),
        no_duplicates: false,
        sort: true,
    };
    let universe = vec![0, 1, 2, 3, 4, 5];
    assert_eq!(activate_cmd(&args, &universe).unwrap(), vec![3, 3, 4, 5]);
}

#[test]
fn activate_dedup_and_sort_strictly_ascending() {
    let args = OptionalCoresArgs {
        cores: Some("3,1,3,2".to_string()),
        no_duplicates: true,
        sort: true,
    };
    let universe = vec![0, 1, 2, 3];
    assert_eq!(activate_cmd(&args, &universe).unwrap(), vec![1, 2, 3]);
}

#[test]
fn activate_defaults_to_whole_universe() {
    let args = OptionalCoresArgs {
        cores: None,
        no_duplicates: false,
        sort: false,
    };
    let universe = vec![0, 1, 2, 3];
    assert_eq!(activate_cmd(&args, &universe).unwrap(), vec![0, 1, 2, 3]);
}

#[test]
fn activate_with_zero_succeeds_and_write_list_skips_zero() {
    let args = OptionalCoresArgs {
        cores: Some("0-2".to_string()),
        no_duplicates: false,
        sort: false,
    };
    let universe = vec![0, 1, 2, 3];
    let cores = activate_cmd(&args, &universe).unwrap();
    assert_eq!(cores, vec![0, 1, 2]);
    assert_eq!(cores_to_write(&cores), vec![1, 2]);
}

#[test]
fn deactivate_with_zero_fails_protected() {
    let args = CoresArgs {
        cores: "0-2".to_string(),
        no_duplicates: false,
        sort: false,
    };
    let universe = vec![0, 1, 2, 3];
    assert!(matches!(
        deactivate_cmd(&args, &universe).unwrap_err(),
        CoreError::ProtectedCore
    ));
}

#[test]
fn deactivate_without_zero_succeeds() {
    let args = CoresArgs {
        cores: "1-2".to_string(),
        no_duplicates: false,
        sort: false,
    };
    let universe = vec![0, 1, 2, 3];
    assert_eq!(deactivate_cmd(&args, &universe).unwrap(), vec![1, 2]);
}

#[test]
fn unknown_core_fails_validation() {
    let args = OptionalCoresArgs {
        cores: Some("1,7,9".to_string()),
        no_duplicates: false,
        sort: false,
    };
    let universe = vec![0, 1, 2];
    match show_cmd(&args, &universe) {
        Err(CoreError::Validation { invalid, universe: u }) => {
            assert_eq!(invalid, vec![7, 9]);
            assert_eq!(u, vec![0, 1, 2]);
        }
        _ => panic!("expected a validation error"),
    }
}

#[test]
fn unknown_core_outranks_protected_zero() {
    let args = CoresArgs {
        cores: "0,9".to_string(),
        no_duplicates: false,
        sort: false,
    };
    let universe = vec![0, 1];
    assert!(matches!(
        deactivate_cmd(&args, &universe).unwrap_err(),
        CoreError::Validation { .. }
    ));
}

#[test]
fn malformed_expression_fails_before_validation() {
    let args = OptionalCoresArgs {
        cores: Some("2f".to_string()),
        no_duplicates: false,
        sort: false,
    };
    let universe = vec![0, 1, 2];
    assert!(matches!(
        activate_cmd(&args, &universe).unwrap_err(),
        CoreError::Range(RangeError::ParseIntError)
    ));
}

#[test]
fn inverted_bounds_reach_commands_as_range_error() {
    let args = CoresArgs {
        cores: "1-0".to_string(),
        no_duplicates: false,
        sort: false,
    };
    let universe = vec![0, 1, 2];
    assert!(matches!(
        deactivate_cmd(&args, &universe).unwrap_err(),
        CoreError::Range(RangeError::BoundariesError)
    ));
}

#[test]
fn discovery_includes_zero_and_sorts() {
    let names = vec![
        "cpu1".to_string(),
        "cpu0".to_string(),
        "cpu10".to_string(),
        "cpufreq".to_string(),
        "power".to_string(),
        "cpu2".to_string(),
    ];
    let cores = extract_core_nums(&names);
    assert!(cores.contains(&0));
    assert_eq!(cores, vec![0, 1, 2, 10]);
}

#[test]
fn discovery_ignores_non_matching_names() {
    let names = vec!["cpuX".to_string(), "acpi".to_string(), "cpu".to_string()];
    assert_eq!(extract_core_nums(&names), Vec::<u32>::new());
}

#[test]
fn discovery_keeps_equal_indices_from_distinct_names() {
    let names = vec!["cpu007".to_string(), "cpu7".to_string()];
    assert_eq!(extract_core_nums(&names), vec![7, 7]);
}

#[test]
fn discovery_skips_oversized_suffix() {
    let names = vec!["cpu4294967296".to_string(), "cpu1".to_string()];
    assert_eq!(extract_core_nums(&names), vec![1]);
}

#[test]
fn is_cpu_dir_name_checks_the_fixed_pattern() {
    assert!(is_cpu_dir_name("cpu0"));
    assert!(is_cpu_dir_name("cpu42"));
    assert!(!is_cpu_dir_name("cpu"));
    assert!(!is_cpu_dir_name("cpu1a"));
    assert!(!is_cpu_dir_name("Cpu1"));
    assert!(!is_cpu_dir_name("cpufreq"));
}

#[test]
fn core_status_values_and_names() {
    assert_eq!(CoreStatus::Off.value(), 0);
    assert_eq!(CoreStatus::On.value(), 1);
    assert_eq!(CoreStatus::Off._name(), "off");
    assert_eq!(CoreStatus::On._name(), "on");
}

#[test]
fn write_list_keeps_non_zero_repetitions_in_order() {
    assert_eq!(cores_to_write(&vec![0, 2, 0, 1, 2]), vec![2, 1, 2]);
}

#[test]
fn status_first_char_reads_the_flag() {
    assert_eq!(status_first_char("1\n"), Some('1'));
    assert_eq!(status_first_char("0"), Some('0'));
    assert_eq!(status_first_char(""), None);
}
