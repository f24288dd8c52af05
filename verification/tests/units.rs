//! Unit conversions: memory strings, walltimes, efficiencies, node lists,
//! dates, and the plain-text helpers they rest on.

use batchmon::dates::date_to_unix_timestamp;
use batchmon::remote::{build_remote_invocation, classify_output, login_exit_success};
use batchmon::text::{parse_u64, u64_to_string};
use batchmon::units::{
    condense_exec_host, convert_mem_to_gb, cpu_efficiency, mem_efficiency, walltime_to_percentage,
    walltime_to_seconds, GbFixed, MemError, WalltimeError, GB_UNITS, KB_UNITS,
};

#[test]
fn mem_kb_uses_the_fixed_constant() {
    // 4 kb = 4 * 0.0000009536743 GB, exactly 4 * 9536743 fixed-point units.
    let g = convert_mem_to_gb("4kb").unwrap();
    assert_eq!(g.units, 4 * KB_UNITS);
    assert_eq!(g.units, 38146972);
}

#[test]
fn mem_gb_and_bare_numbers_are_gigabytes() {
    assert_eq!(convert_mem_to_gb("2gb").unwrap().units, 2 * GB_UNITS);
    assert_eq!(convert_mem_to_gb("3").unwrap().units, 3 * GB_UNITS);
    assert_eq!(convert_mem_to_gb("2.5gb").unwrap().units, 25_000_000_000_000);
}

#[test]
fn mem_unrecognized_suffix_is_an_error() {
    assert_eq!(convert_mem_to_gb("5mb"), Err(MemError::Unrecognized));
    assert_eq!(convert_mem_to_gb(""), Err(MemError::Unrecognized));
    assert_eq!(convert_mem_to_gb("kb"), Err(MemError::Unrecognized));
    assert_eq!(convert_mem_to_gb("1.2.3"), Err(MemError::Unrecognized));
}

#[test]
fn mem_too_large_is_an_error_not_a_wrap() {
    // Nineteen nines of gigabytes exceed the fixed-point range.
    assert_eq!(
        convert_mem_to_gb("9999999999999999999"),
        Err(MemError::TooLarge)
    );
}

#[test]
fn walltime_seconds_exact() {
    assert_eq!(walltime_to_seconds("02:03:04").unwrap(), 2 * 3600 + 3 * 60 + 4);
    assert_eq!(walltime_to_seconds("00:00:00").unwrap(), 0);
}

#[test]
fn walltime_needs_exactly_three_fields() {
    assert_eq!(walltime_to_seconds("1:00"), Err(WalltimeError::Format));
    assert_eq!(walltime_to_seconds("1:2:3:4"), Err(WalltimeError::Format));
    assert_eq!(walltime_to_seconds("aa:bb:cc"), Err(WalltimeError::Format));
    assert_eq!(walltime_to_seconds(""), Err(WalltimeError::Format));
}

#[test]
fn walltime_efficiency_is_used_over_reserved() {
    // 1800 s of 3600 s: 50%, held as 5000 hundredths of a percent.
    assert_eq!(walltime_to_percentage("01:00:00", "00:30:00").unwrap(), 5000);
    // Over-use goes past 100%.
    assert_eq!(walltime_to_percentage("00:30:00", "01:00:00").unwrap(), 20000);
}

#[test]
fn walltime_zero_reserved_is_an_error_not_infinity() {
    assert_eq!(
        walltime_to_percentage("00:00:00", "00:30:00"),
        Err(WalltimeError::ZeroReserved)
    );
}

#[test]
fn cpu_and_mem_efficiencies() {
    // An aggregate 200% across 4 CPUs is 50% per core.
    assert_eq!(cpu_efficiency(200, 4).unwrap(), 5000);
    assert!(cpu_efficiency(200, 0).is_err());
    let used = GbFixed { units: 10 * GB_UNITS };
    let rsv = GbFixed { units: 50 * GB_UNITS };
    assert_eq!(mem_efficiency(used, rsv).unwrap(), 2000);
    assert!(mem_efficiency(used, GbFixed { units: 0 }).is_err());
}

#[test]
fn exec_host_reduces_to_distinct_nodes_in_order() {
    assert_eq!(condense_exec_host("node3/1+node3/0+node7/2"), "node3,node7");
    assert_eq!(condense_exec_host("a/0"), "a");
    assert_eq!(condense_exec_host("a/0+b/1+a/2+c/0+b/3"), "a,b,c");
}

#[test]
fn dates_parse_through_the_calendar() {
    // Would fail if the date wrapper handed its argument back unchanged:
    // the epoch value takes real calendar arithmetic.
    assert_eq!(
        date_to_unix_timestamp("Fri Oct 10 12:00:00 2025").unwrap(),
        1760097600
    );
    assert!(date_to_unix_timestamp("not a date").is_err());
    // A wrong weekday is rejected by the parse, not silently accepted.
    assert!(date_to_unix_timestamp("Mon Oct 10 12:00:00 2025").is_err());
}

#[test]
fn decimal_text_round_trips() {
    assert_eq!(parse_u64("123"), Some(123));
    assert_eq!(parse_u64("0"), Some(0));
    assert_eq!(parse_u64(""), None);
    assert_eq!(parse_u64("12a"), None);
    assert_eq!(parse_u64("99999999999999999999999"), None);
    assert_eq!(u64_to_string(0), "0");
    assert_eq!(u64_to_string(90210), "90210");
    assert_eq!(parse_u64(&u64_to_string(u64::MAX)), Some(u64::MAX));
}

#[test]
fn remote_invocations_are_built_verbatim_or_wrapped() {
    let args = vec!["-anL".to_string()];
    let (prog, argv) = build_remote_invocation("jobstat", &args, true);
    assert_eq!(prog, "script");
    assert_eq!(argv, vec!["-q", "-c", "jobstat -anL", "/dev/null"]);
    let (prog2, argv2) = build_remote_invocation("groups", &vec!["alice".to_string()], false);
    assert_eq!(prog2, "groups");
    assert_eq!(argv2, vec!["alice"]);
}

#[test]
fn any_error_output_is_fatal_for_the_invocation() {
    assert_eq!(classify_output("out".to_string(), ""), Ok("out".to_string()));
    assert_eq!(
        classify_output("out".to_string(), "oops"),
        Err("oops".to_string())
    );
}

#[test]
fn only_a_zero_exit_verifies_a_credential() {
    assert!(login_exit_success(Some(0)));
    assert!(!login_exit_success(Some(1)));
    assert!(!login_exit_success(None));
}

#[test]
fn walltime_ratio_overflow_is_too_large() {
    // A reserved second against an enormous used walltime overflows the
    // fixed-point ratio.
    let used = "99999999999999:00:00";
    assert_eq!(
        walltime_to_percentage("00:00:01", used),
        Err(WalltimeError::TooLarge)
    );
}

#[test]
fn mem_fraction_beyond_precision_is_unrecognized() {
    // Fourteen fraction digits exceed the fixed-point precision.
    assert_eq!(
        convert_mem_to_gb("1.00000000000001gb"),
        Err(MemError::Unrecognized)
    );
    // Thirteen are exact.
    assert_eq!(convert_mem_to_gb("0.0000000000001").unwrap().units, 1);
}

#[test]
fn dates_before_the_epoch_are_errors() {
    assert!(date_to_unix_timestamp("Wed Jan 01 00:00:00 1964").is_err());
}
