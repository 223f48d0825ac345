use rust_qsim::dijkstra::AltOptions;
use rust_qsim::facilities::{OpenDay, OpeningTime};
use rust_qsim::travel_times::{
    build_consolidated_travel_times, number_of_bins, time_slot, LinkObservation,
    PartitionTravelTimeCollector, PendingTravelTimes,
};

const SECOND: u128 = 1_000_000_000;

#[test]
fn consolidation_cascades_previous_bin_minus_bin_size() {
    let bin_size = 900 * SECOND;
    let mut observed = vec![None; 5];
    observed[0] = Some(3000 * SECOND);
    let result = build_consolidated_travel_times(&observed, SECOND, bin_size);
    let expected: Vec<u128> = [3000, 2100, 1200, 300, 1].iter().map(|s| s * SECOND).collect();
    assert_eq!(result, expected);
}

#[test]
fn consolidation_keeps_observations_above_the_bound() {
    let bin_size = 10 * SECOND;
    let observed = vec![Some(50 * SECOND), Some(45 * SECOND), None, Some(5 * SECOND)];
    let result = build_consolidated_travel_times(&observed, 2 * SECOND, bin_size);
    assert_eq!(result, vec![50 * SECOND, 45 * SECOND, 35 * SECOND, 25 * SECOND]);
    assert!(build_consolidated_travel_times(&vec![], SECOND, bin_size).is_empty());
}

#[test]
fn bins_cover_the_whole_day() {
    assert_eq!(number_of_bins(900 * SECOND, 86400 * SECOND), 97);
    assert_eq!(number_of_bins(900 * SECOND, 899 * SECOND), 1);
    assert_eq!(time_slot(0, 900 * SECOND, 97), 0);
    assert_eq!(time_slot(1799 * SECOND, 900 * SECOND, 97), 1);
    assert_eq!(time_slot(1_000_000 * SECOND, 900 * SECOND, 97), 96);
    assert_eq!(time_slot(u128::MAX, 1, 3), 2);
}

#[test]
fn travel_times_are_published_when_every_partition_submitted() {
    let mut pending: PendingTravelTimes<&str> = PendingTravelTimes::new(2);
    assert!(pending.accepts(1, 0));
    assert!(!pending.accepts(1, 2), "rank out of range");
    assert_eq!(pending.submit(1, 1, "one"), None);
    assert!(!pending.accepts(1, 1), "duplicate submission");
    assert!(!pending.accepts(2, 0), "overlapping iterations");
    assert_eq!(pending.submit(1, 0, "zero"), Some(vec!["zero", "one"]));
    assert_eq!(pending.last_published_iteration, Some(1));
    assert_eq!(pending.iteration, None);
    assert!(!pending.accepts(1, 0), "iteration already published");
    assert!(!pending.accepts(0, 0), "stale iteration");
    assert!(pending.accepts(2, 1));
}

#[test]
fn alt_options_record_parents() {
    let mut options = AltOptions::new(2, vec![None; 3]);
    assert!(options.reached_end(2));
    assert!(!options.reached_end(1));
    options.set_parent_opt(2, 0);
    assert_eq!(options.parents, vec![None, None, Some(0)]);
    assert_eq!(options.get_to_node_opt(), Some(2));
}

#[test]
fn opening_times_hold_day_and_times() {
    let t = OpeningTime { day: OpenDay::Wkday, start_time: 8 * 3600 * SECOND, end_time: 18 * 3600 * SECOND };
    assert_eq!(t.day, OpenDay::Wkday);
    assert!(t.start_time < t.end_time);
}

#[test]
fn link_leaves_after_enters_are_observed_in_the_enter_bin() {
    let mut c = PartitionTravelTimeCollector::new(10 * SECOND, 100 * SECOND);
    assert_eq!(c.num_bins, 11);
    c.process_vehicle_enters_traffic_event(1, 7);
    assert_eq!(c.vehicle_mode(1), Some(7));
    // Leaving before any enter observes nothing.
    assert_eq!(c.process_link_leave_event(1, 3 * SECOND), None);
    c.process_link_enter_event(1, 42, 25 * SECOND);
    assert_eq!(c.active_link_enter(1), Some((42, 25 * SECOND)));
    assert_eq!(
        c.process_link_leave_event(1, 31 * SECOND),
        Some(LinkObservation { mode: 7, link: 42, slot: 2, travel_time: 6 * SECOND })
    );
    assert_eq!(c.active_link_enter(1), None);
    // A vehicle without a mode is ignored.
    assert_eq!(c.process_link_leave_event(2, 31 * SECOND), None);
    c.process_link_enter_event(1, 43, 500 * SECOND);
    assert_eq!(c.process_link_leave_event(1, 501 * SECOND).unwrap().slot, 10);
    c.process_vehicle_leaves_traffic_event(1);
    assert_eq!(c.vehicle_mode(1), None);
    c.process_vehicle_enters_partition_event(3, 8);
    c.reset();
    assert_eq!(c.vehicle_mode(3), None);
}
