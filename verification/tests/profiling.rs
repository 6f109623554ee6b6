use instrument::region::Rank;
use instrument::{
    recv, try_recv, HandoffQueue, RecordingTimestamp, Region, RegionRecord, ThreadLocal,
    ToChromeTracing,
};

const SLEEP_DURATION_MILLIS: i64 = 20;
const SLEEP_DURATION_NANOS: i64 = SLEEP_DURATION_MILLIS * 1_000_000;
const DURATION_ACCURACY_NANOS: i64 = 2_000_000;

#[test]
fn single_thread_single_region() {
    let mut session = ThreadLocal::new();
    let mut queue = HandoffQueue::new();
    let region = RegionRecord::new(&mut session, "main", "tests/profiling.rs", 13);
    region.close(&mut session, &mut queue);
    let result = recv(&mut queue);
    assert_eq!(result.region_backends.len(), 1);
    assert!(try_recv(&mut queue).is_none());
    let profile = result.profile();
    assert_eq!(profile.root_region_executions.len(), 1);
}

#[test]
fn single_thread_multiple_regions() {
    let mut session = ThreadLocal::with_thread_id(1);
    let mut queue = HandoffQueue::new();
    let begin: i64 = 1_000;
    session.open("main", "tests/profiling.rs", 41, RecordingTimestamp(begin));
    session.open("function1", "tests/profiling.rs", 37, RecordingTimestamp(begin + 10));
    let inner = session.close(RecordingTimestamp(begin + 10 + SLEEP_DURATION_NANOS));
    assert!(inner.is_none());
    let outer = session.close(RecordingTimestamp(begin + 20 + SLEEP_DURATION_NANOS));
    queue.push(outer.unwrap());
    let raw_thread_profile = recv(&mut queue);
    assert_eq!(raw_thread_profile.region_backends.len(), 2);
    let thread_profile = raw_thread_profile.profile();
    assert_eq!(thread_profile.regions.len(), 2);
    assert_eq!(thread_profile.root_region_executions.len(), 1);
    let ref root = thread_profile.root_region_executions[0];
    assert_eq!(root.children.len(), 1);
    assert_eq!(root.region.name, "main");
    assert_eq!(root.region.file, "tests/profiling.rs");
    assert_eq!(root.region.line, 54 - 13);
    assert!(
        i128::abs(root.duration().whole_nanoseconds() - SLEEP_DURATION_NANOS as i128)
            < DURATION_ACCURACY_NANOS as i128
    );
    assert_eq!(thread_profile.root_region_executions[0].children.len(), 1);
    assert!(try_recv(&mut queue).is_none());
}

#[test]
fn export_writes_one_object_for_each_event() {
    let mut session = ThreadLocal::with_thread_id(7);
    session.open("main", "a.rs", 1, RecordingTimestamp(1_500));
    session.open("inner", "a.rs", 2, RecordingTimestamp(2_000));
    session.close(RecordingTimestamp(5_000));
    let raw = session.close(RecordingTimestamp(20_001_500)).unwrap();
    let texts = raw.profile().to_chrome_tracing(42);
    assert_eq!(
        texts,
        vec![
            "{\"name\":\"main\",\"ph\":\"X\",\"ts\":1.5,\"dur\":20000,\"pid\":42,\"tid\":7}"
                .to_string(),
            "{\"name\":\"inner\",\"ph\":\"X\",\"ts\":2,\"dur\":3,\"pid\":42,\"tid\":7}".to_string(),
        ]
    );
}

#[test]
fn two_threads_stay_apart() {
    let mut queue = HandoffQueue::new();
    let mut first = ThreadLocal::with_thread_id(11);
    let mut second = ThreadLocal::with_thread_id(22);
    first.open("main1", "a.rs", 1, RecordingTimestamp(0));
    second.open("main2", "b.rs", 2, RecordingTimestamp(5));
    let done_second = second.close(RecordingTimestamp(15)).unwrap();
    queue.push(done_second);
    let done_first = first.close(RecordingTimestamp(20)).unwrap();
    queue.push(done_first);
    let raw_a = recv(&mut queue);
    let raw_b = recv(&mut queue);
    assert_eq!(raw_a.region_backends.len(), 1);
    assert_eq!(raw_b.region_backends.len(), 1);
    assert_eq!(raw_a.thread_id, 22);
    assert_eq!(raw_b.thread_id, 11);
    let profile_a = raw_a.profile();
    let profile_b = raw_b.profile();
    assert_eq!(profile_a.regions.len(), 1);
    assert_eq!(profile_b.regions.len(), 1);
    assert_eq!(profile_a.root_region_executions.len(), 1);
    assert_eq!(profile_b.root_region_executions.len(), 1);
    assert_eq!(profile_a.root_region_executions[0].region.name, "main2");
    assert_eq!(profile_b.root_region_executions[0].region.name, "main1");
    assert!(try_recv(&mut queue).is_none());
}

#[test]
fn many_siblings_keep_their_order() {
    const COUNT: usize = 2_000;
    let mut session = ThreadLocal::with_thread_id(3);
    session.open("main", "a.rs", 1, RecordingTimestamp(0));
    for i in 0..COUNT {
        let at = 10 * (i as i64 + 1);
        session.open("function1", "a.rs", 9, RecordingTimestamp(at));
        assert!(session.close(RecordingTimestamp(at + 5)).is_none());
    }
    let raw = session.close(RecordingTimestamp(1_000_000)).unwrap();
    assert_eq!(raw.region_backends.len(), COUNT + 1);
    let profile = raw.profile();
    assert_eq!(profile.root_region_executions.len(), 1);
    let root = &profile.root_region_executions[0];
    assert_eq!(root.children.len(), COUNT);
    for i in 0..COUNT {
        assert_eq!(root.children[i].start.nanoseconds, 10 * (i as i128 + 1));
        assert_eq!(root.children[i].end.nanoseconds, 10 * (i as i128 + 1) + 5);
        assert_eq!(root.children[i].region.name, "function1");
        assert_eq!(root.children[i].children.len(), 0);
    }
    let child = Region { name: "function1", file: "a.rs", line: 9 };
    let bucket = profile.executions_of(&child).unwrap();
    assert_eq!(bucket.len(), COUNT);
    for i in 0..COUNT {
        assert_eq!(bucket[i].start.nanoseconds, 10 * (i as i128 + 1));
    }
    let main = Region { name: "main", file: "a.rs", line: 1 };
    assert_eq!(profile.executions_of(&main).unwrap().len(), 1);
    assert_eq!(profile.regions.len(), 2);
}

#[test]
fn drained_queue_stays_empty() {
    let mut queue = HandoffQueue::new();
    assert!(queue.is_empty());
    assert!(try_recv(&mut queue).is_none());
    let mut session = ThreadLocal::with_thread_id(1);
    session.open("a", "a.rs", 1, RecordingTimestamp(0));
    queue.push(session.close(RecordingTimestamp(1)).unwrap());
    assert!(!queue.is_empty());
    assert!(try_recv(&mut queue).is_some());
    for _ in 0..5 {
        assert!(try_recv(&mut queue).is_none());
        assert!(queue.is_empty());
    }
    let mut again = ThreadLocal::with_thread_id(1);
    again.open("b", "a.rs", 2, RecordingTimestamp(2));
    queue.push(again.close(RecordingTimestamp(3)).unwrap());
    let next = try_recv(&mut queue).unwrap();
    assert_eq!(next.region_backends[0].name, "b");
    assert!(try_recv(&mut queue).is_none());
}

#[test]
fn queue_hands_out_oldest_first() {
    let mut queue = HandoffQueue::new();
    for id in 0..4usize {
        let mut session = ThreadLocal::with_thread_id(id);
        session.open("r", "a.rs", 1, RecordingTimestamp(0));
        queue.push(session.close(RecordingTimestamp(1)).unwrap());
    }
    assert_eq!(recv(&mut queue).thread_id, 0);
    assert_eq!(try_recv(&mut queue).unwrap().thread_id, 1);
    assert_eq!(recv(&mut queue).thread_id, 2);
    assert_eq!(recv(&mut queue).thread_id, 3);
    assert!(queue.is_empty());
}

#[test]
fn open_links_to_the_innermost_open_region() {
    let mut session = ThreadLocal::with_thread_id(5);
    session.open("a", "f.rs", 1, RecordingTimestamp(1));
    session.open("b", "f.rs", 2, RecordingTimestamp(2));
    session.open("c", "f.rs", 3, RecordingTimestamp(3));
    assert!(session.close(RecordingTimestamp(4)).is_none());
    session.open("d", "f.rs", 4, RecordingTimestamp(5));
    {
        let profile = session.raw_thread_profile.as_ref().unwrap();
        let parents: Vec<Option<usize>> =
            profile.region_backends.iter().map(|backend| backend.parent).collect();
        assert_eq!(parents, vec![None, Some(0), Some(1), Some(1)]);
        assert_eq!(profile.region_backends[2].end.map(|end| end.0), Some(4));
        assert!(profile.region_backends[3].end.is_none());
        assert_eq!(profile.thread_id, 5);
    }
    assert_eq!(session.stack.iter().copied().collect::<Vec<usize>>(), vec![0, 1, 3]);
    assert!(session.close(RecordingTimestamp(6)).is_none());
    assert!(session.close(RecordingTimestamp(7)).is_none());
    let raw = session.close(RecordingTimestamp(8)).unwrap();
    assert!(session.raw_thread_profile.is_none());
    assert!(session.stack.is_empty());
    let ends: Vec<Option<i64>> =
        raw.region_backends.iter().map(|backend| backend.end.map(|end| end.0)).collect();
    assert_eq!(ends, vec![Some(8), Some(7), Some(4), Some(6)]);
}

#[test]
fn guard_starts_a_fresh_generation_after_handoff() {
    let mut session = ThreadLocal::new();
    let mut queue = HandoffQueue::new();
    let outer = RegionRecord::new(&mut session, "outer", "g.rs", 1);
    let inner = RegionRecord::new(&mut session, "inner", "g.rs", 2);
    inner.close(&mut session, &mut queue);
    assert!(queue.is_empty());
    outer.close(&mut session, &mut queue);
    assert!(session.raw_thread_profile.is_none());
    let next = RegionRecord::new(&mut session, "next", "g.rs", 3);
    assert_eq!(session.raw_thread_profile.as_ref().unwrap().region_backends.len(), 1);
    next.close(&mut session, &mut queue);
    let first = recv(&mut queue);
    let second = recv(&mut queue);
    assert_eq!(first.region_backends.len(), 2);
    assert_eq!(first.region_backends[1].parent, Some(0));
    assert_eq!(second.region_backends.len(), 1);
    assert_eq!(second.region_backends[0].name, "next");
    assert_eq!(first.thread_id, second.thread_id);
    assert!(first.region_backends.iter().all(|backend| backend.end.is_some()));
    assert!(try_recv(&mut queue).is_none());
}

#[test]
fn clock_reads_nanoseconds_since_the_epoch() {
    let reading = RecordingTimestamp::now();
    assert_eq!(reading.to_nanoseconds(), reading.0 as i128);
    // later than the first of January 2020
    assert!(reading.to_nanoseconds() > 1_577_836_800_000_000_000);
    assert_eq!(RecordingTimestamp(-7).to_nanoseconds(), -7);
}

#[test]
fn forest_follows_the_links() {
    let mut session = ThreadLocal::with_thread_id(1);
    // a holds b and d, b holds c
    session.open("a", "t.rs", 1, RecordingTimestamp(0));
    session.open("b", "t.rs", 2, RecordingTimestamp(1));
    session.open("c", "t.rs", 3, RecordingTimestamp(2));
    session.close(RecordingTimestamp(3));
    session.close(RecordingTimestamp(4));
    session.open("d", "t.rs", 4, RecordingTimestamp(5));
    session.close(RecordingTimestamp(6));
    let raw = session.close(RecordingTimestamp(7)).unwrap();
    let profile = raw.profile();
    assert_eq!(profile.thread_id, 1);
    assert_eq!(profile.root_region_executions.len(), 1);
    let a = &profile.root_region_executions[0];
    assert_eq!((a.region.name, a.start.nanoseconds, a.end.nanoseconds), ("a", 0, 7));
    assert_eq!(a.children.len(), 2);
    let b = &a.children[0];
    assert_eq!((b.region.name, b.start.nanoseconds, b.end.nanoseconds), ("b", 1, 4));
    assert_eq!(b.children.len(), 1);
    let c = &b.children[0];
    assert_eq!((c.region.name, c.region.file, c.region.line), ("c", "t.rs", 3));
    assert_eq!((c.start.nanoseconds, c.end.nanoseconds), (2, 3));
    assert_eq!(c.children.len(), 0);
    let d = &a.children[1];
    assert_eq!((d.region.name, d.start.nanoseconds, d.end.nanoseconds), ("d", 5, 6));
    assert_eq!(d.children.len(), 0);
}

#[test]
fn several_roots_come_in_the_order_of_opening() {
    let raw = instrument::RawThreadProfile {
        thread_id: 9,
        region_backends: vec![
            backend("x", "t.rs", 1, None, 0, 10),
            backend("y", "t.rs", 2, Some(0), 1, 2),
            backend("z", "t.rs", 3, None, 11, 20),
            backend("y", "t.rs", 2, Some(2), 12, 13),
            backend("y", "t.rs", 2, Some(0), 3, 4),
        ],
    };
    let profile = raw.profile();
    let roots: Vec<&str> =
        profile.root_region_executions.iter().map(|root| root.region.name).collect();
    assert_eq!(roots, vec!["x", "z"]);
    let under_x: Vec<i128> =
        profile.root_region_executions[0].children.iter().map(|e| e.start.nanoseconds).collect();
    assert_eq!(under_x, vec![1, 3]);
    let y = Region { name: "y", file: "t.rs", line: 2 };
    let starts: Vec<i128> =
        profile.executions_of(&y).unwrap().iter().map(|e| e.start.nanoseconds).collect();
    assert_eq!(starts, vec![1, 3, 12]);
    let texts = profile.to_chrome_tracing(1);
    let names: Vec<String> = texts
        .iter()
        .map(|text| json::parse(text).unwrap()["name"].as_str().unwrap().to_string())
        .collect();
    assert_eq!(names, vec!["x", "y", "y", "z", "y"]);
}

fn backend(
    name: &'static str,
    file: &'static str,
    line: u32,
    parent: Option<usize>,
    start: i64,
    end: i64,
) -> instrument::RegionRecordBackend {
    instrument::RegionRecordBackend {
        name,
        file,
        line,
        parent,
        start: RecordingTimestamp(start),
        end: Some(RecordingTimestamp(end)),
    }
}

#[test]
fn empty_generation_gives_an_empty_profile() {
    let raw = instrument::RawThreadProfile { thread_id: 4, region_backends: Vec::new() };
    let profile = raw.profile();
    assert_eq!(profile.thread_id, 4);
    assert!(profile.root_region_executions.is_empty());
    assert!(profile.regions.is_empty());
    assert!(profile.to_chrome_tracing(1).is_empty());
    let none = Region { name: "none", file: "t.rs", line: 1 };
    assert!(profile.executions_of(&none).is_none());
}

#[test]
fn index_lists_regions_by_name_then_file_then_line() {
    let raw = instrument::RawThreadProfile {
        thread_id: 1,
        region_backends: vec![
            backend("b", "a.rs", 1, None, 0, 100),
            backend("a", "z.rs", 9, Some(0), 1, 2),
            backend("a", "b.rs", 7, Some(0), 3, 4),
            backend("a", "b.rs", 3, Some(0), 5, 6),
            backend("ab", "a.rs", 1, Some(0), 7, 8),
            backend("a", "b.rs", 7, Some(0), 9, 10),
            backend("", "a.rs", 1, Some(0), 11, 12),
            backend("a", "b", 8, Some(0), 13, 14),
        ],
    };
    let profile = raw.profile();
    let listed: Vec<(&str, &str, u32, usize)> = profile
        .regions
        .iter()
        .map(|bucket| {
            (bucket.region.name, bucket.region.file, bucket.region.line, bucket.executions.len())
        })
        .collect();
    assert_eq!(
        listed,
        vec![
            ("", "a.rs", 1, 1),
            ("a", "b", 8, 1),
            ("a", "b.rs", 3, 1),
            ("a", "b.rs", 7, 2),
            ("a", "z.rs", 9, 1),
            ("ab", "a.rs", 1, 1),
            ("b", "a.rs", 1, 1),
        ]
    );
    let twice = Region { name: "a", file: "b.rs", line: 7 };
    let starts: Vec<i128> =
        profile.executions_of(&twice).unwrap().iter().map(|e| e.start.nanoseconds).collect();
    assert_eq!(starts, vec![3, 9]);
    let other_line = Region { name: "a", file: "b.rs", line: 8 };
    assert!(profile.executions_of(&other_line).is_none());
}

#[test]
fn nested_executions_of_one_region_are_registered_inner_first() {
    let raw = instrument::RawThreadProfile {
        thread_id: 1,
        region_backends: vec![
            backend("r", "a.rs", 1, None, 0, 10),
            backend("r", "a.rs", 1, Some(0), 1, 9),
            backend("r", "a.rs", 1, Some(1), 2, 8),
        ],
    };
    let profile = raw.profile();
    assert_eq!(profile.regions.len(), 1);
    let r = Region { name: "r", file: "a.rs", line: 1 };
    let bucket = profile.executions_of(&r).unwrap();
    let starts: Vec<i128> = bucket.iter().map(|e| e.start.nanoseconds).collect();
    assert_eq!(starts, vec![2, 1, 0]);
    let depth: Vec<usize> = bucket.iter().map(|e| e.children.len()).collect();
    assert_eq!(depth, vec![0, 1, 1]);
    assert_eq!(bucket[2].children[0].children[0].start.nanoseconds, 2);
}

#[test]
fn regions_rank_by_name_file_and_line() {
    let base = Region { name: "load", file: "src/a.rs", line: 10 };
    assert_eq!(base.rank(&Region { name: "load", file: "src/a.rs", line: 10 }), Rank::Same);
    assert_eq!(base.rank(&Region { name: "load", file: "src/a.rs", line: 11 }), Rank::Before);
    assert_eq!(base.rank(&Region { name: "load", file: "src/a.rs", line: 9 }), Rank::After);
    assert_eq!(base.rank(&Region { name: "load", file: "src/b.rs", line: 1 }), Rank::Before);
    assert_eq!(base.rank(&Region { name: "load", file: "src/a", line: 99 }), Rank::After);
    assert_eq!(base.rank(&Region { name: "loader", file: "a", line: 1 }), Rank::Before);
    assert_eq!(base.rank(&Region { name: "loa", file: "z", line: 99 }), Rank::After);
    assert_eq!(base.rank(&Region { name: "Load", file: "z", line: 99 }), Rank::After);
    assert_eq!(base.rank(&Region { name: "l\u{e9}", file: "a", line: 1 }), Rank::Before);
    let ranked = [("", "b"), ("a", "b"), ("\u{e9}", "z"), ("\u{20ac}", "a")];
    for (i, first) in ranked.iter().enumerate() {
        for (j, second) in ranked.iter().enumerate() {
            let left = Region { name: first.0, file: first.1, line: 0 };
            let right = Region { name: second.0, file: second.1, line: 0 };
            let expected = if first < second {
                Rank::Before
            } else if first == second {
                Rank::Same
            } else {
                Rank::After
            };
            assert_eq!(left.rank(&right), expected, "{} {}", i, j);
            assert_eq!(left < right, expected == Rank::Before);
            assert_eq!(left == right, expected == Rank::Same);
        }
    }
}

#[test]
fn region_is_taken_from_the_activation() {
    let activation = backend("name", "file.rs", 77, Some(3), 1, 2);
    let region = Region::from(&activation);
    assert_eq!((region.name, region.file, region.line), ("name", "file.rs", 77));
}

#[test]
fn duration_is_end_minus_start() {
    let raw = instrument::RawThreadProfile {
        thread_id: 1,
        region_backends: vec![
            backend("a", "a.rs", 1, None, 1_000, 20_001_000),
            backend("b", "a.rs", 2, None, -5, 7),
            backend("c", "a.rs", 3, None, 9, 4),
            backend("d", "a.rs", 4, None, i64::MIN, i64::MAX),
        ],
    };
    let profile = raw.profile();
    let durations: Vec<i128> = profile
        .root_region_executions
        .iter()
        .map(|execution| execution.duration().whole_nanoseconds())
        .collect();
    assert_eq!(durations, vec![20_000_000, 12, -5, u64::MAX as i128]);
    assert_eq!(profile.root_region_executions[0].duration(), time::Duration::milliseconds(20));
    let odd = instrument::RegionExecution {
        children: Vec::new(),
        region: Region { name: "odd", file: "a.rs", line: 1 },
        start: instrument::Instant::new(0),
        end: instrument::Instant::new((1i128 << 64) + 3),
    };
    assert_eq!(odd.duration().whole_nanoseconds(), 3);
}

#[test]
fn events_give_microseconds_with_three_decimals() {
    let raw = instrument::RawThreadProfile {
        thread_id: 18_446_744_073_709_551_615,
        region_backends: vec![
            backend("whole", "a.rs", 1, None, 5_000, 8_000),
            backend("fraction", "a.rs", 2, None, 1_234_567, 1_234_568),
            backend("before the origin", "a.rs", 3, None, -1, 0),
            backend("backwards", "a.rs", 4, None, 10, 0),
            backend("zero", "a.rs", 5, None, 0, 0),
            backend("quote\"d", "a.rs", 6, None, i64::MIN, i64::MAX),
        ],
    };
    let texts = raw.profile().to_chrome_tracing(4_294_967_295);
    let tail = ",\"pid\":4294967295,\"tid\":18446744073709551615}";
    let expected = vec![
        format!("{{\"name\":\"whole\",\"ph\":\"X\",\"ts\":5,\"dur\":3{}", tail),
        format!("{{\"name\":\"fraction\",\"ph\":\"X\",\"ts\":1234.567,\"dur\":0.001{}", tail),
        format!("{{\"name\":\"before the origin\",\"ph\":\"X\",\"ts\":-0.001,\"dur\":0.001{}", tail),
        format!("{{\"name\":\"backwards\",\"ph\":\"X\",\"ts\":0.01,\"dur\":-0.01{}", tail),
        format!("{{\"name\":\"zero\",\"ph\":\"X\",\"ts\":0,\"dur\":0{}", tail),
        format!(
            "{{\"name\":\"quote\\\"d\",\"ph\":\"X\",\"ts\":-9223372036854775.808,\"dur\":18446744073709551.615{}",
            tail
        ),
    ];
    assert_eq!(texts, expected);
    for text in texts.iter() {
        let event = json::parse(text).unwrap();
        assert!(event.is_object());
        assert_eq!(event.len(), 6);
        assert_eq!(event["ph"], "X");
    }
}

#[test]
fn export_puts_a_parent_before_what_is_nested_in_it() {
    let raw = instrument::RawThreadProfile {
        thread_id: 2,
        region_backends: vec![
            backend("r0", "a.rs", 1, None, 0, 100),
            backend("r1", "a.rs", 2, Some(0), 1, 50),
            backend("r2", "a.rs", 3, Some(1), 2, 10),
            backend("r3", "a.rs", 4, Some(0), 51, 60),
            backend("r4", "a.rs", 5, Some(1), 11, 20),
            backend("r5", "a.rs", 6, None, 101, 110),
            backend("r6", "a.rs", 7, Some(3), 52, 53),
        ],
    };
    let profile = raw.profile();
    let texts = profile.to_chrome_tracing(1);
    let names: Vec<String> = texts
        .iter()
        .map(|text| json::parse(text).unwrap()["name"].as_str().unwrap().to_string())
        .collect();
    assert_eq!(names, vec!["r0", "r1", "r2", "r4", "r3", "r6", "r5"]);
    let mut walked = Vec::new();
    for root in profile.root_region_executions.iter() {
        walk(root, &mut walked);
    }
    assert_eq!(names, walked);
    let copy = profile.root_region_executions[0].clone();
    let mut copied = Vec::new();
    walk(&copy, &mut copied);
    assert_eq!(copied, vec!["r0", "r1", "r2", "r4", "r3", "r6"]);
}

fn walk(execution: &instrument::RegionExecution, names: &mut Vec<String>) {
    names.push(execution.region.name.to_string());
    for child in execution.children.iter() {
        walk(child, names);
    }
}

#[test]
fn new_generation_holds_no_activation() {
    let raw = instrument::RawThreadProfile::new(3);
    assert_eq!(raw.thread_id, 3);
    assert!(raw.region_backends.is_empty());
    let session = ThreadLocal::with_thread_id(8);
    assert_eq!(session.raw_thread_profile.as_ref().unwrap().thread_id, 8);
    assert!(session.raw_thread_profile.as_ref().unwrap().region_backends.is_empty());
    assert!(session.stack.is_empty());
    let fresh = ThreadLocal::new();
    assert!(fresh.raw_thread_profile.as_ref().unwrap().region_backends.is_empty());
    assert!(fresh.stack.is_empty());
}

#[test]
fn unfinished_or_wrongly_linked_generations_are_told_apart() {
    let fine = instrument::RawThreadProfile {
        thread_id: 1,
        region_backends: vec![backend("a", "a.rs", 1, None, 0, 3), backend("b", "a.rs", 2, Some(0), 1, 2)],
    };
    assert!(fine.is_finished());
    let mut open = backend("b", "a.rs", 2, Some(0), 1, 2);
    open.end = None;
    let unfinished = instrument::RawThreadProfile {
        thread_id: 1,
        region_backends: vec![backend("a", "a.rs", 1, None, 0, 3), open],
    };
    assert!(!unfinished.is_finished());
    let own_parent = instrument::RawThreadProfile {
        thread_id: 1,
        region_backends: vec![backend("a", "a.rs", 1, Some(0), 0, 3)],
    };
    assert!(!own_parent.is_finished());
    let later_parent = instrument::RawThreadProfile {
        thread_id: 1,
        region_backends: vec![backend("a", "a.rs", 1, Some(1), 0, 3), backend("b", "a.rs", 2, None, 1, 2)],
    };
    assert!(!later_parent.is_finished());
    assert!(instrument::RawThreadProfile::new(1).is_finished());
}

#[test]
fn instants_beyond_a_clock_reading_are_told_apart() {
    let region = Region { name: "r", file: "a.rs", line: 1 };
    let leaf = |start: i128, end: i128| instrument::RegionExecution {
        children: Vec::new(),
        region,
        start: instrument::Instant::new(start),
        end: instrument::Instant::new(end),
    };
    assert!(leaf(i64::MIN as i128, i64::MAX as i128).is_bounded());
    assert!(!leaf(i64::MIN as i128 - 1, 0).is_bounded());
    assert!(!leaf(0, i64::MAX as i128 + 1).is_bounded());
    let mut tree = leaf(0, 10);
    tree.children.push(leaf(1, 2));
    tree.children.push(leaf(3, 4));
    assert!(tree.is_bounded());
    tree.children[1].children.push(leaf(i64::MAX as i128 + 1, 0));
    assert!(!tree.is_bounded());
    let rebuilt = instrument::RawThreadProfile {
        thread_id: 1,
        region_backends: vec![backend("a", "a.rs", 1, None, i64::MIN, i64::MAX)],
    }
    .profile();
    assert!(rebuilt.is_exportable());
    let odd = instrument::ThreadProfile {
        thread_id: 1,
        regions: Vec::new(),
        root_region_executions: vec![leaf(0, 1), tree],
    };
    assert!(!odd.is_exportable());
}

#[test]
fn reading_keeps_the_low_64_bits_of_the_nanoseconds() {
    assert_eq!(RecordingTimestamp::from_unix_nanoseconds(0).0, 0);
    assert_eq!(
        RecordingTimestamp::from_unix_nanoseconds(1_700_000_000_123_456_789).0,
        1_700_000_000_123_456_789
    );
    assert_eq!(RecordingTimestamp::from_unix_nanoseconds(-5).to_nanoseconds(), -5);
    assert_eq!(RecordingTimestamp::from_unix_nanoseconds(i64::MAX as i128).0, i64::MAX);
    assert_eq!(RecordingTimestamp::from_unix_nanoseconds(i64::MIN as i128).0, i64::MIN);
    assert_eq!(RecordingTimestamp::from_unix_nanoseconds(i64::MAX as i128 + 1).0, i64::MIN);
    assert_eq!(RecordingTimestamp::from_unix_nanoseconds((1i128 << 64) + 7).0, 7);
    assert_eq!(RecordingTimestamp::from_unix_nanoseconds(-(1i128 << 64) - 7).0, -7);
}
