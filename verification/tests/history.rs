use ballast::average::Average;
use ballast::error::Error;
use ballast::process::{Expected, LoadStats, SimpleConfig, Test};
use ballast::snapshot::{Snapshot, Stored};

fn result(name: &str, average: u64) -> Test {
    Test {
        success: true,
        within_threshold: true,
        expected: Expected { body: None, status_code: Some(true), headers: None },
        stats: LoadStats {
            average_response_time: Average::whole_number(average),
            min_response_time: average,
            max_response_time: average,
        },
        config: SimpleConfig {
            num_cycles: 1,
            num_concurrent_requests: 1,
            endpoint_name: name.to_string(),
            endpoint_url: format!("http://localhost/{}", name),
        },
    }
}

fn taken_at(timestamp: u64, average: u64) -> Snapshot {
    Snapshot { outputs: vec![result("ping", average)], timestamp }
}

fn averages(snapshot: &Snapshot) -> Vec<u64> {
    snapshot.outputs.iter().map(|t| t.stats.average_response_time.parts().0).collect()
}

#[test]
fn latest_of_an_empty_history_is_none() {
    assert!(Snapshot::latest(vec![]).is_none());
    assert!(Snapshot::latest(Snapshot::read(Stored::Absent).unwrap()).is_none());
}

#[test]
fn latest_is_the_later_of_two_in_either_order() {
    let newest = Snapshot::latest(vec![taken_at(100, 1), taken_at(200, 2)]).unwrap();
    assert_eq!(newest.timestamp, 200);
    assert_eq!(averages(&newest), vec![2]);
    let newest = Snapshot::latest(vec![taken_at(200, 2), taken_at(100, 1)]).unwrap();
    assert_eq!(newest.timestamp, 200);
    assert_eq!(averages(&newest), vec![2]);
}

#[test]
fn latest_scans_the_whole_history() {
    let history =
        vec![taken_at(5, 1), taken_at(9, 2), taken_at(3, 3), taken_at(8, 4), taken_at(1, 5)];
    let newest = Snapshot::latest(history).unwrap();
    assert_eq!(newest.timestamp, 9);
    assert_eq!(averages(&newest), vec![2]);
}

#[test]
fn latest_of_equal_timestamps_is_the_one_kept_last() {
    let history = vec![taken_at(7, 1), taken_at(7, 2), taken_at(2, 3), taken_at(7, 4), taken_at(6, 5)];
    let newest = Snapshot::latest(history).unwrap();
    assert_eq!(newest.timestamp, 7);
    assert_eq!(averages(&newest), vec![4]);
}

#[test]
fn write_appends_and_keeps_what_was_there() {
    let mut history = vec![taken_at(10, 1), taken_at(20, 2)];
    taken_at(30, 3).write(&mut history);
    assert_eq!(history.len(), 3);
    assert_eq!(history.iter().map(|s| s.timestamp).collect::<Vec<_>>(), vec![10, 20, 30]);
    assert_eq!(averages(&history[2]), vec![3]);
    assert_eq!(averages(&history[0]), vec![1]);
}

#[test]
fn written_snapshot_is_the_latest() {
    let mut history = vec![taken_at(10, 1), taken_at(20, 2)];
    let run = vec![result("ping", 42), result("pong", 43)];
    Snapshot::stamped(run, Some(20)).unwrap().write(&mut history);
    let newest = Snapshot::latest(history).unwrap();
    assert_eq!(newest.timestamp, 20);
    assert_eq!(averages(&newest), vec![42, 43]);
    assert_eq!(newest.outputs[1].config.endpoint_name, "pong");
}

#[test]
fn written_snapshot_older_than_the_history_is_not_the_latest() {
    let mut history = vec![taken_at(200, 1)];
    taken_at(100, 2).write(&mut history);
    let newest = Snapshot::latest(history).unwrap();
    assert_eq!(newest.timestamp, 200);
    assert_eq!(averages(&newest), vec![1]);
}

#[test]
fn first_write_to_an_absent_history() {
    let mut history = Snapshot::read(Stored::Absent).unwrap();
    assert!(history.is_empty());
    taken_at(1, 9).write(&mut history);
    assert_eq!(averages(&Snapshot::latest(history).unwrap()), vec![9]);
}

#[test]
fn malformed_history_is_an_error() {
    assert_eq!(Snapshot::read(Stored::Malformed).unwrap_err(), Error::MalformedHistory);
}

#[test]
fn parsed_history_is_kept_as_it_is() {
    let history = Snapshot::read(Stored::Parsed(vec![taken_at(3, 1), taken_at(1, 2)])).unwrap();
    assert_eq!(history.iter().map(|s| s.timestamp).collect::<Vec<_>>(), vec![3, 1]);
}

#[test]
fn stamped_takes_the_clock_reading() {
    let snapshot = Snapshot::stamped(vec![result("ping", 5)], Some(1_700_000_000)).unwrap();
    assert_eq!(snapshot.timestamp, 1_700_000_000);
    assert_eq!(averages(&snapshot), vec![5]);
}

#[test]
fn stamped_without_a_reading_is_a_timestamp_error() {
    assert_eq!(Snapshot::stamped(vec![result("ping", 5)], None).unwrap_err(), Error::Timestamp);
}

#[test]
fn new_reads_the_clock() {
    let snapshot = Snapshot::new(vec![result("ping", 5), result("pong", 6)]).unwrap();
    assert!(snapshot.timestamp > 1_600_000_000);
    assert!(snapshot.timestamp < 32_503_680_000);
    assert_eq!(averages(&snapshot), vec![5, 6]);
}

#[test]
fn entries_are_found_by_endpoint_name() {
    let snapshot = Snapshot {
        outputs: vec![result("a", 1), result("b", 2), result("a", 3)],
        timestamp: 1,
    };
    assert_eq!(snapshot.find(&"a".to_string()).unwrap().stats.min_response_time, 1);
    assert_eq!(snapshot.find(&"b".to_string()).unwrap().stats.min_response_time, 2);
    assert!(snapshot.find(&"c".to_string()).is_none());
}
