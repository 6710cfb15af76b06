use json_tokenizer::repetition::RepetitionTestResults;
use json_tokenizer::repetition::estimate_cpu_timer_freq;
use json_tokenizer::repetition::get_os_timer_freq;
use json_tokenizer::repetition::os_wait_time;

#[test]
fn test_get_os_timer_freq() {
    assert_eq!(1_000_000, get_os_timer_freq());
}

#[test]
fn test_os_wait_time() {
    assert_eq!(100_000, os_wait_time(1_000_000, 100));
}

#[test]
fn test_estimate_cpu_timer_freq_doubles() {
    assert_eq!(2_000_000, estimate_cpu_timer_freq(1_000_000, 0, 200_000, 0, 100_000));
}

#[test]
fn test_estimate_cpu_timer_freq_empty_interval() {
    assert_eq!(0, estimate_cpu_timer_freq(1_000_000, 5, 5, 7, 7));
}

#[test]
fn test_repetition_results_record() {
    let mut results = RepetitionTestResults::new();
    assert_eq!(0, results.test_count);
    assert_eq!(u64::MAX, results.min_time);

    results.record_test(5);
    results.record_test(3);
    results.record_test(0);

    assert_eq!(3, results.test_count);
    assert_eq!(8, results.total_time);
    assert_eq!(5, results.max_time);
    assert_eq!(3, results.min_time);
}
