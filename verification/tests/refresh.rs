use dash::coordinator::{MyApp, RefreshResult, Request};
use dash::fetch::{
    arguments_to, copy_tool, digest, raw_fetch_of, remote_address, transfer_plan, RawFetch,
    Transfer,
};
use dash::parse::{Fault, ParseError};
use dash::project::{
    default_interval, default_terminal, same_text, Config, Fetch, FetchError, Project,
    ProjectType, Timestamp, NANOS_PER_SEC,
};
use dash::series::{DataSet, Number, Point};
use dash::worker::serve;

fn project(name: &str, typ: ProjectType, interval: u64, last: u64) -> Project {
    let mut p = Project::new(
        name.to_string(),
        format!("{}.example.org", name),
        format!("/jobs/{}/out", name),
        typ,
        last,
    );
    p.update_interval = interval;
    p
}

fn coordinator(intervals: &[u64]) -> MyApp {
    let projects = intervals
        .iter()
        .enumerate()
        .map(|(i, secs)| project(&format!("job{}", i), ProjectType::Pbqff, *secs, 0))
        .collect();
    MyApp::new("/tmp/scratch".to_string(), Config { projects, terminal: default_terminal() })
}

fn names(c: &MyApp) -> Vec<String> {
    c.config.projects.iter().map(|p| p.name.clone()).collect()
}

fn series(name: &str, ys: &[&str]) -> DataSet {
    DataSet {
        name: name.to_string(),
        data: ys
            .iter()
            .enumerate()
            .map(|(i, y)| Point { x: Number::Count(i as u64), y: Number::Literal(y.to_string()) })
            .collect(),
    }
}

fn stamp(secs: i64) -> Timestamp {
    Timestamp { secs, nanos: 0 }
}

#[test]
fn defaults() {
    assert_eq!(default_interval(), 600);
    assert_eq!(default_terminal(), "st");
    assert_eq!(Timestamp::default(), Timestamp { secs: 0, nanos: 0 });
    assert_eq!(NANOS_PER_SEC, 1_000_000_000);
}

#[test]
fn kinds_by_name() {
    assert_eq!(ProjectType::from_name("semp"), Some(ProjectType::Semp));
    assert_eq!(ProjectType::from_name("pbqff"), Some(ProjectType::Pbqff));
    assert_eq!(ProjectType::from_name("Semp"), None);
    assert_eq!(ProjectType::from_name(""), None);
    assert_eq!(ProjectType::from_name("pbqff "), None);
}

#[test]
fn same_text_compares_characters() {
    assert!(same_text("", ""));
    assert!(same_text("semp", "semp"));
    assert!(!same_text("semp", "sema"));
    assert!(!same_text("semp", "semp2"));
}

#[test]
fn new_project_starts_empty_and_requested() {
    let p = Project::new("a".into(), "h".into(), "/x/y".into(), ProjectType::Semp, 42);
    assert_eq!(p.id, 0);
    assert_eq!(p.name, "a");
    assert_eq!(p.host, "h");
    assert_eq!(p.path, "/x/y");
    assert_eq!(p.typ, ProjectType::Semp);
    assert_eq!(p.last_updated, 42);
    assert_eq!(p.update_interval, 600);
    assert!(p.data.is_empty());
    assert_eq!(p.last_modified, Timestamp { secs: 0, nanos: 0 });
}

#[test]
fn stale_once_more_than_the_interval_has_passed() {
    let start = 5 * NANOS_PER_SEC;
    let p = project("a", ProjectType::Pbqff, 600, start);
    assert!(!p.needs_update(start));
    assert!(!p.needs_update(start + 600 * NANOS_PER_SEC - 1));
    assert!(!p.needs_update(start + 600 * NANOS_PER_SEC));
    assert!(p.needs_update(start + 600 * NANOS_PER_SEC + 1));
    assert!(p.needs_update(start + 601 * NANOS_PER_SEC));
    assert!(p.needs_update(u64::MAX));
}

#[test]
fn half_a_second_past_the_interval_is_stale() {
    let p = project("a", ProjectType::Pbqff, 60, 0);
    assert!(!p.needs_update(60 * NANOS_PER_SEC));
    assert!(p.needs_update(60 * NANOS_PER_SEC + NANOS_PER_SEC / 2));
}

#[test]
fn longest_interval_does_not_overflow() {
    let p = project("a", ProjectType::Pbqff, u64::MAX, 0);
    assert!(!p.needs_update(u64::MAX));
    let q = project("a", ProjectType::Pbqff, u64::MAX / NANOS_PER_SEC, 0);
    assert!(!q.needs_update((u64::MAX / NANOS_PER_SEC) * NANOS_PER_SEC));
    assert!(q.needs_update((u64::MAX / NANOS_PER_SEC) * NANOS_PER_SEC + 1));
}

#[test]
fn clock_reading_before_last_request_is_not_stale() {
    let p = project("a", ProjectType::Pbqff, 0, 10 * NANOS_PER_SEC);
    assert!(!p.needs_update(0));
    assert!(!p.needs_update(10 * NANOS_PER_SEC));
    assert!(p.needs_update(10 * NANOS_PER_SEC + 1));
}

#[test]
fn marking_never_moves_the_timestamp_back() {
    let mut p = project("a", ProjectType::Pbqff, 60, 100);
    p.mark_requested(250);
    assert_eq!(p.last_updated, 250);
    p.mark_requested(200);
    assert_eq!(p.last_updated, 250);
    p.mark_requested(250);
    assert_eq!(p.last_updated, 250);
}

#[test]
fn finished_fetch_replaces_series_and_time() {
    let mut p = project("a", ProjectType::Pbqff, 60, 100);
    p.data = vec![series("old", &["1", "2"])];
    let fetched = Fetch { last_modified: stamp(77), data: vec![series("new", &["3"])] };
    assert_eq!(p.update(Ok(fetched)), Ok(()));
    assert_eq!(p.data, vec![series("new", &["3"])]);
    assert_eq!(p.last_modified, stamp(77));
    assert_eq!(p.last_updated, 100);
    assert_eq!(p.update_interval, 60);
}

#[test]
fn failed_fetch_leaves_the_project_as_it_was() {
    let mut p = project("a", ProjectType::Pbqff, 60, 100);
    p.data = vec![series("old", &["1", "2"])];
    p.last_modified = stamp(5);
    let before = format!("{:?}", p);
    assert_eq!(p.update(Err(FetchError::Transport)), Err(FetchError::Transport));
    assert_eq!(format!("{:?}", p), before);
    assert_eq!(p.update(Err(FetchError::Io)), Err(FetchError::Io));
    assert_eq!(format!("{:?}", p), before);
}

#[test]
fn new_coordinator_numbers_the_targets() {
    let c = coordinator(&[60, 30, 90]);
    let ids: Vec<u64> = c.config.projects.iter().map(|p| p.id).collect();
    assert_eq!(ids, vec![0, 1, 2]);
    assert_eq!(c.next_id, 3);
    assert_eq!(c.temp, "/tmp/scratch");
    assert!(c.to_delete.is_empty());
    assert_eq!(names(&c), vec!["job0", "job1", "job2"]);
}

#[test]
fn added_target_gets_the_next_identifier() {
    let mut c = coordinator(&[60]);
    let id = c.add_project(project("late", ProjectType::Semp, 10, 0));
    assert_eq!(id, Some(1));
    assert_eq!(c.config.projects[1].id, 1);
    assert_eq!(c.config.projects[1].name, "late");
    assert_eq!(c.next_id, 2);
    c.next_id = u64::MAX;
    assert_eq!(c.add_project(project("never", ProjectType::Semp, 10, 0)), None);
    assert_eq!(names(&c), vec!["job0", "late"]);
}

#[test]
fn scan_requests_each_stale_target_once() {
    let mut c = coordinator(&[60, 600, 30]);
    let now = 61 * NANOS_PER_SEC;
    let requests = c.scan(now);
    let ids: Vec<u64> = requests.iter().map(|r| r.id).collect();
    assert_eq!(ids, vec![0, 2]);
    assert_eq!(requests[0].host, "job0.example.org");
    assert_eq!(requests[0].path, "/jobs/job0/out");
    assert_eq!(requests[0].temp, "/tmp/scratch");
    assert_eq!(requests[0].typ, ProjectType::Pbqff);
    assert_eq!(c.config.projects[0].last_updated, now);
    assert_eq!(c.config.projects[1].last_updated, 0);
    assert_eq!(c.config.projects[2].last_updated, now);
    assert!(c.scan(now).is_empty());
    assert!(c.scan(now + 30 * NANOS_PER_SEC).is_empty());
    let later = c.scan(now + 31 * NANOS_PER_SEC);
    assert_eq!(later.iter().map(|r| r.id).collect::<Vec<u64>>(), vec![2]);
}

#[test]
fn last_request_time_never_decreases_over_scans() {
    let mut c = coordinator(&[1, 2]);
    let mut seen = vec![0u64, 0u64];
    for now in [0, 5, 3, 9, 9, 2, 40].map(|s| s * NANOS_PER_SEC) {
        c.scan(now);
        for (k, p) in c.config.projects.iter().enumerate() {
            assert!(p.last_updated >= seen[k]);
            seen[k] = p.last_updated;
        }
    }
    assert_eq!(seen, vec![40 * NANOS_PER_SEC, 40 * NANOS_PER_SEC]);
}

#[test]
fn forced_request_marks_the_target() {
    let mut c = coordinator(&[600, 600]);
    let request = c.request_update(1, 7).unwrap();
    assert_eq!(request.id, 1);
    assert_eq!(request.host, "job1.example.org");
    assert_eq!(c.config.projects[1].last_updated, 7);
    assert_eq!(c.config.projects[0].last_updated, 0);
    assert!(c.request_update(2, 7).is_none());
}

#[test]
fn shortest_interval_bounds_the_wait() {
    assert_eq!(coordinator(&[]).min_timeout(), 600);
    assert_eq!(coordinator(&[700]).min_timeout(), 700);
    assert_eq!(coordinator(&[60, 30, 90]).min_timeout(), 30);
    assert_eq!(coordinator(&[5, 5, 0]).min_timeout(), 0);
}

#[test]
fn removal_waits_for_do_removal() {
    let mut c = coordinator(&[60, 60, 60, 60, 60]);
    c.request_removal(1);
    c.request_removal(3);
    assert_eq!(names(&c), vec!["job0", "job1", "job2", "job3", "job4"]);
    assert!(c.pending(1) && c.pending(3) && !c.pending(2));
    let requests = c.scan(61 * NANOS_PER_SEC);
    assert_eq!(requests.len(), 5);
    assert_eq!(names(&c), vec!["job0", "job1", "job2", "job3", "job4"]);
    c.do_removal();
    assert_eq!(names(&c), vec!["job0", "job2", "job4"]);
    assert!(c.to_delete.is_empty());
}

#[test]
fn removal_order_and_repeats_do_not_matter() {
    let mut c = coordinator(&[1, 1, 1, 1, 1]);
    for idx in [1, 3, 1, 9, 0] {
        c.request_removal(idx);
    }
    assert_eq!(c.to_delete, vec![1, 3, 1, 9, 0]);
    assert!(c.pending(9));
    c.do_removal();
    assert_eq!(names(&c), vec!["job2", "job4"]);
    c.do_removal();
    assert_eq!(names(&c), vec!["job2", "job4"]);
}

#[test]
fn result_finds_its_target_after_a_removal() {
    let mut c = coordinator(&[60, 60, 60]);
    c.request_removal(0);
    c.do_removal();
    let taken = c.apply(RefreshResult {
        id: 2,
        data: vec![series("s", &["1"])],
        last_modified: stamp(9),
    });
    assert!(taken);
    assert_eq!(names(&c), vec!["job1", "job2"]);
    assert!(c.config.projects[0].data.is_empty());
    assert_eq!(c.config.projects[1].data, vec![series("s", &["1"])]);
    assert_eq!(c.config.projects[1].last_modified, stamp(9));
    assert_eq!(c.position(2), Some(1));
    assert_eq!(c.position(0), None);
}

#[test]
fn result_for_a_removed_target_is_dropped() {
    let mut c = coordinator(&[60, 60]);
    c.request_removal(1);
    c.do_removal();
    let before = format!("{:?}", c);
    let taken = c.apply(RefreshResult {
        id: 1,
        data: vec![series("s", &["1"])],
        last_modified: stamp(9),
    });
    assert!(!taken);
    assert_eq!(format!("{:?}", c), before);
}

#[test]
fn result_replaces_series_wholesale() {
    let mut c = coordinator(&[60]);
    c.apply(RefreshResult {
        id: 0,
        data: vec![series("a", &["1", "2"]), series("b", &["3"])],
        last_modified: stamp(1),
    });
    c.apply(RefreshResult {
        id: 0,
        data: vec![series("c", &["4"])],
        last_modified: stamp(2),
    });
    assert_eq!(c.config.projects[0].data, vec![series("c", &["4"])]);
    assert_eq!(c.config.projects[0].last_modified, stamp(2));
    assert_eq!(c.config.projects[0].last_updated, 0);
}

#[test]
fn failed_refresh_changes_nothing() {
    let mut c = coordinator(&[60, 60]);
    c.apply(RefreshResult {
        id: 1,
        data: vec![series("a", &["1", "2"])],
        last_modified: stamp(1),
    });
    let before = format!("{:?}", c);
    let failures = [
        FetchError::Transport,
        FetchError::Io,
        FetchError::Parse(ParseError { line: 0, column: 1, fault: Fault::Malformed }),
    ];
    for e in failures {
        assert!(!c.settle(Err(e)));
        assert_eq!(format!("{:?}", c), before);
    }
}

#[test]
fn tick_scans_settles_removes_and_plans() {
    let mut c = coordinator(&[60, 600, 30]);
    c.request_removal(2);
    let arrived = vec![
        Err(FetchError::Transport),
        Ok(RefreshResult {
        id: 1,
        data: vec![series("s", &["7"])],
        last_modified: stamp(3),
    }),
        Ok(RefreshResult {
        id: 2,
        data: vec![series("t", &["8"])],
        last_modified: stamp(4),
    }),
        Ok(RefreshResult {
        id: 17,
        data: vec![],
        last_modified: stamp(5),
    }),
    ];
    let now = 100 * NANOS_PER_SEC;
    let plan = c.update(now, arrived);
    assert_eq!(plan.requests.iter().map(|r| r.id).collect::<Vec<u64>>(), vec![0, 2]);
    assert_eq!(plan.wake_after, 60);
    assert_eq!(names(&c), vec!["job0", "job1"]);
    assert_eq!(c.config.projects[0].last_updated, now);
    assert_eq!(c.config.projects[1].last_updated, 0);
    assert_eq!(c.config.projects[1].data, vec![series("s", &["7"])]);
    assert_eq!(c.config.projects[1].last_modified, stamp(3));
    assert!(c.to_delete.is_empty());
    let idle = c.update(now, Vec::new());
    assert!(idle.requests.is_empty());
    assert_eq!(idle.wake_after, 60);
}

#[test]
fn tick_without_targets_waits_the_default_interval() {
    let mut c = coordinator(&[]);
    let plan = c.update(5, Vec::new());
    assert!(plan.requests.is_empty());
    assert_eq!(plan.wake_after, 600);
}

#[test]
fn address_is_host_colon_path() {
    assert_eq!(remote_address("node7", "/scratch/run/semp.out"), "node7:/scratch/run/semp.out");
    assert_eq!(remote_address("", ""), ":");
}

#[test]
fn sampling_log_needs_one_transfer() {
    let plan = transfer_plan("node7", "/scratch/run/pbqff.log", ProjectType::Pbqff).unwrap();
    assert_eq!(
        plan,
        vec![Transfer { remote: "node7:/scratch/run/pbqff.log".into(), local: "path.dat".into() }]
    );
    assert!(transfer_plan("node7", "", ProjectType::Pbqff).is_some());
}

#[test]
fn optimiser_run_also_needs_its_companion() {
    let plan = transfer_plan("node7", "/scratch/run/semp.out", ProjectType::Semp).unwrap();
    assert_eq!(
        plan,
        vec![
            Transfer { remote: "node7:/scratch/run/semp.out".into(), local: "path.dat".into() },
            Transfer { remote: "node7:/scratch/run/freqs.log".into(), local: "freqs.log".into() },
        ]
    );
    let plan = transfer_plan("h", "semp.out", ProjectType::Semp).unwrap();
    assert_eq!(plan[1].remote, "h:freqs.log");
    let plan = transfer_plan("h", "run/semp.out", ProjectType::Semp).unwrap();
    assert_eq!(plan[1].remote, "h:run/freqs.log");
}

#[test]
fn optimiser_run_without_directory_has_no_plan() {
    assert!(transfer_plan("h", "", ProjectType::Semp).is_none());
    assert!(transfer_plan("h", "/", ProjectType::Semp).is_none());
}

#[test]
fn digest_of_an_optimiser_run_gives_four_series() {
    let raw = RawFetch {
        last_modified: stamp(12),
        primary: "0 1.5 x 2.5 x 3.5\n1 1.0 x 2.0 x 3.0\n".into(),
        companion: Some("0 9.5\n1 8.5\n2 7.5\n".into()),
    };
    let fetch = digest(ProjectType::Semp, &raw).unwrap();
    assert_eq!(fetch.last_modified, stamp(12));
    let shape: Vec<(String, usize)> =
        fetch.data.iter().map(|s| (s.name.clone(), s.data.len())).collect();
    assert_eq!(
        shape,
        vec![
            ("Norm".to_string(), 2),
            ("RMSD".to_string(), 2),
            ("MAX".to_string(), 2),
            ("MAE".to_string(), 3),
        ]
    );
    assert_eq!(fetch.data[3].data[2].x, Number::Literal("2".into()));
    assert_eq!(fetch.data[3].data[2].y, Number::Literal("7.5".into()));
}

#[test]
fn digest_of_a_sampling_log_gives_one_series() {
    let raw = RawFetch {
        last_modified: stamp(1),
        primary: "[iter 1 a b c d e 5\n".into(),
        companion: Some("not read".into()),
    };
    let fetch = digest(ProjectType::Pbqff, &raw).unwrap();
    assert_eq!(fetch.data.len(), 1);
    assert_eq!(fetch.data[0].name, "Points remaining");
    assert_eq!(fetch.data[0].data.len(), 1);
}

#[test]
fn digest_reports_each_failure() {
    let missing = RawFetch {
        last_modified: stamp(1),
        primary: "0 1 x 2 x 3\n".into(),
        companion: None,
    };
    assert_eq!(digest(ProjectType::Semp, &missing).unwrap_err(), FetchError::Transport);
    let bad_main = RawFetch {
        last_modified: stamp(1),
        primary: "0 1 x 2 x\n".into(),
        companion: None,
    };
    assert_eq!(
        digest(ProjectType::Semp, &bad_main).unwrap_err(),
        FetchError::Parse(ParseError { line: 0, column: 5, fault: Fault::Missing })
    );
    let bad_companion = RawFetch {
        last_modified: stamp(1),
        primary: "0 1 x 2 x 3\n".into(),
        companion: Some("0 1\nzero one\n".into()),
    };
    assert_eq!(
        digest(ProjectType::Semp, &bad_companion).unwrap_err(),
        FetchError::Parse(ParseError { line: 1, column: 0, fault: Fault::Malformed })
    );
    let bad_log = RawFetch {
        last_modified: stamp(1),
        primary: "[iter x\n".into(),
        companion: None,
    };
    assert_eq!(
        digest(ProjectType::Pbqff, &bad_log).unwrap_err(),
        FetchError::Parse(ParseError { line: 0, column: 1, fault: Fault::Malformed })
    );
}

#[test]
fn worker_passes_failures_on_and_labels_results() {
    let request = Request {
        id: 4,
        temp: "/tmp/x".into(),
        host: "h".into(),
        path: "/p/log".into(),
        typ: ProjectType::Pbqff,
    };
    let failed = serve(&request, Err(FetchError::Transport));
    assert_eq!(failed.unwrap_err(), FetchError::Transport);
    assert_eq!(serve(&request, Err(FetchError::Io)).unwrap_err(), FetchError::Io);
    let raw = RawFetch {
        last_modified: stamp(8),
        primary: "[iter 3 a b c d e 2\n".into(),
        companion: None,
    };
    let result = serve(&request, Ok(raw)).unwrap();
    assert_eq!(result.id, 4);
    assert_eq!(result.last_modified, stamp(8));
    assert_eq!(result.data.len(), 1);
    assert_eq!(
        result.data[0].data,
        vec![Point { x: Number::Literal("3".into()), y: Number::Literal("2".into()) }]
    );
    let broken = RawFetch {
        last_modified: stamp(8),
        primary: "[iter 3\n".into(),
        companion: None,
    };
    assert_eq!(
        serve(&request, Ok(broken)).unwrap_err(),
        FetchError::Parse(ParseError { line: 0, column: 7, fault: Fault::Missing })
    );
}

#[test]
fn failed_fetch_end_to_end_leaves_the_target_untouched() {
    let mut c = coordinator(&[1]);
    c.apply(RefreshResult {
        id: 0,
        data: vec![series("a", &["1"])],
        last_modified: stamp(1),
    });
    let requests = c.scan(2 * NANOS_PER_SEC);
    assert_eq!(requests.len(), 1);
    let data_before = c.config.projects[0].data.clone();
    let time_before = c.config.projects[0].last_modified;
    let outcome = serve(&requests[0], Err(FetchError::Transport));
    assert!(!c.settle(outcome));
    assert_eq!(c.config.projects[0].data, data_before);
    assert_eq!(c.config.projects[0].last_modified, time_before);
}

#[test]
fn copy_keeps_times_and_compresses() {
    assert_eq!(copy_tool(), "scp");
    assert_eq!(
        arguments_to("h:/a/b", "/tmp/x/path.dat"),
        vec!["-p", "-C", "h:/a/b", "/tmp/x/path.dat"]
    );
    let transfer = Transfer { remote: "h:/a/b".into(), local: "path.dat".into() };
    let expected = vec!["-p", "-C", "h:/a/b", "/tmp/dash.7/path.dat"];
    assert_eq!(transfer.arguments("/tmp/dash.7"), expected);
    assert_eq!(transfer.arguments("/tmp/dash.7/"), expected);
}

#[test]
fn position_is_the_first_match() {
    let mut c = coordinator(&[1, 1, 1]);
    assert!(c.is_valid());
    assert_eq!(c.position(1), Some(1));
    c.config.projects[2].id = 1;
    assert!(!c.is_valid());
    assert_eq!(c.position(1), Some(1));
    c.config.projects[2].id = 7;
    assert!(!c.is_valid());
    c.next_id = 8;
    assert!(c.is_valid());
    c.to_delete.push(3);
    assert!(c.is_valid());
}

#[test]
fn first_fetched_file_is_the_main_one() {
    assert!(raw_fetch_of(Vec::new()).is_none());
    let raw = raw_fetch_of(vec![("main".to_string(), stamp(3))]).unwrap();
    assert_eq!(raw.primary, "main");
    assert_eq!(raw.last_modified, stamp(3));
    assert_eq!(raw.companion, None);
    let texts = vec![
        ("main".to_string(), stamp(3)),
        ("side".to_string(), stamp(9)),
        ("more".to_string(), stamp(1)),
    ];
    let raw = raw_fetch_of(texts).unwrap();
    assert_eq!(raw.primary, "main");
    assert_eq!(raw.last_modified, stamp(3));
    assert_eq!(raw.companion, Some("side".to_string()));
}

#[test]
fn worker_goes_on_after_a_failure() {
    let request = |id| Request {
        id,
        temp: "/tmp/x".into(),
        host: "h".into(),
        path: "/p/log".into(),
        typ: ProjectType::Pbqff,
    };
    let good = RawFetch {
        last_modified: stamp(8),
        primary: "[iter 3 a b c d e 2\n".into(),
        companion: None,
    };
    let bad = RawFetch { last_modified: stamp(8), primary: "[iter x\n".into(), companion: None };
    assert!(serve(&request(1), Err(FetchError::Transport)).is_err());
    assert!(serve(&request(2), Ok(bad)).is_err());
    let result = serve(&request(3), Ok(good)).unwrap();
    assert_eq!(result.id, 3);
    assert_eq!(result.data[0].data.len(), 1);
}

#[test]
fn every_index_is_noted_for_removal() {
    let mut c = coordinator(&[1, 1]);
    let before = format!("{:?}", c.config);
    c.request_removal(5);
    c.request_removal(1);
    c.request_removal(5);
    assert_eq!(c.to_delete, vec![5, 1, 5]);
    assert_eq!(format!("{:?}", c.config), before);
    c.do_removal();
    assert_eq!(names(&c), vec!["job0"]);
    assert!(c.to_delete.is_empty());
}
