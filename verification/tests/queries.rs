use freebricks::queries::QueryResults;

#[test]
fn raw_results_keep_their_order() {
    let results = QueryResults::from_raw_results(vec![7, 19]);
    assert_eq!(results.render_start_end_timestamps, [7, 19]);
    assert_eq!(results.elapsed_ticks(), 12);
}

#[test]
fn elapsed_ticks_wrap_around() {
    let results = QueryResults::from_raw_results(vec![u64::MAX, 4]);
    assert_eq!(results.elapsed_ticks(), 5);
}
