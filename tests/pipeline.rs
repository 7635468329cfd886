use beamium::conf::{is_web_url, ConfigError, Scraper, Sink};
use beamium::matcher::{MetricFilter, Selector};
use beamium::router::{class_of, route, select, Route, Router, RunId};
use beamium::scraper::{cut_lines, process, source_file, split_lines};
use beamium::sender::{
    to_body_line, Body, BatchLimits, Chunk, Event, HttpOutcome, Sender, SenderAction, State,
};
use beamium::sink::{SinkPolicy, SinkScanner};
use beamium::spool::{has_metrics_extension, DirEntry, Scanner, SeenSet, SpoolFile, SpoolQueue};
use beamium::transcompiler::{ScraperFormat, Transcompiler};

fn s(v: &str) -> String {
    String::from(v)
}

fn file(path: &str, size: u64, modified_ms: u64) -> SpoolFile {
    let name = path.rsplit('/').next().unwrap();
    SpoolFile { path: s(path), name: s(name), size, modified_ms }
}

fn queue_of(paths: &[&str]) -> SpoolQueue {
    let mut q = SpoolQueue::new();
    for p in paths {
        q.push_back(s(p));
    }
    q
}

#[test]
fn scenario_basic_round_trip() {
    let t = Transcompiler::at(ScraperFormat::Prometheus, 5);
    let body = "# HELP x counter\nfoo{a=\"1\"} 42 1700000000000\n";
    let lines = process(&t, body, &None, "host=h1", &vec![]).unwrap();
    assert_eq!(lines, vec![s("1700000000000000// foo{host=h1,a=1} 42")]);
}

#[test]
fn scenario_percent_encoding() {
    let t = Transcompiler::at(ScraperFormat::Prometheus, 1);
    let lines = process(&t, "f{job_id=\"1+3\"} 1", &None, "", &vec![]).unwrap();
    assert_eq!(lines, vec![s("1// f{job_id=1%2B3} 1")]);
}

#[test]
fn process_filters_and_drops_labels() {
    let t = Transcompiler::at(ScraperFormat::Sensision, 0);
    let filter = MetricFilter::new(vec![s("keep")]);
    assert!(filter.is_some());
    let body = "1// keep{a=1,b=2} 1\r\n1// other{a=1} 2\n=1// {} 3\n\n";
    let drop = vec![s("b")];
    let lines = process(&t, body, &filter, "h=x", &drop).unwrap();
    assert_eq!(lines, vec![s("1// keep{h=x,a=1} 1")]);
    let lines = process(&t, body, &None, "h=x", &drop).unwrap();
    assert_eq!(
        lines,
        vec![s("1// keep{h=x,a=1} 1"), s("1// other{h=x,a=1} 2"), s("=1// {} 3")]
    );
}

#[test]
fn process_stops_at_first_bad_line() {
    let t = Transcompiler::at(ScraperFormat::Prometheus, 0);
    let r = process(&t, "ok 1\nbroken\n", &None, "", &vec![]);
    assert_eq!(r, Err(beamium::error::ParseError::BadClass));
}

#[test]
fn lines_like_str_lines() {
    let body = "a\r\nb\n\nc\r";
    let expected: Vec<String> = body.lines().map(String::from).collect();
    assert_eq!(split_lines(body), expected);
    assert_eq!(split_lines(""), Vec::<String>::new());
    assert_eq!(split_lines("x\n"), vec![s("x")]);
}

#[test]
fn cut_never_splits_a_sample() {
    let lines = vec![s("aaaa"), s("bbbb"), s("=ccc"), s("=ddd"), s("eeee"), s("ffff")];
    let files = cut_lines(&lines, 6);
    assert_eq!(
        files,
        vec![
            vec![s("aaaa"), s("bbbb"), s("=ccc"), s("=ddd")],
            vec![s("eeee"), s("ffff")],
        ]
    );
    // The lines gathered must exceed the size before a cut.
    assert_eq!(cut_lines(&vec![s("aaaa"), s("b")], 4), vec![vec![s("aaaa"), s("b")]]);
    assert_eq!(
        cut_lines(&vec![s("aaaaa"), s("b"), s("=c")], 4),
        vec![vec![s("aaaaa")], vec![s("b"), s("=c")]]
    );
    let flat: Vec<String> = files.concat();
    assert_eq!(flat, lines);
    assert!(cut_lines(&vec![], 10).is_empty());
    assert_eq!(cut_lines(&lines, 1000).len(), 1);
}

#[test]
fn source_file_names() {
    assert_eq!(source_file("scr", 1700, 2, "tmp"), "scr-1700-2.tmp");
    assert_eq!(source_file("scr", -5, 0, "metrics"), "scr--5-0.metrics");
}

#[test]
fn scenario_router_selector() {
    let lines = Router::process("1// foo{} 1\n1// bar{} 2", "").unwrap();
    assert_eq!(lines, vec![s("1// foo{} 1"), s("1// bar{} 2")]);
    let routes = vec![
        Route { name: s("a"), selector: Selector::new("^foo") },
        Route { name: s("b"), selector: None },
        Route { name: s("c"), selector: Selector::new("^nothing") },
    ];
    let out = route(&lines, &routes);
    assert_eq!(out.len(), 2);
    assert_eq!(out[0], (0, vec![s("1// foo{} 1")]));
    assert_eq!(out[1], (1, vec![s("1// foo{} 1"), s("1// bar{} 2")]));
}

#[test]
fn prepare_adds_labels_and_skips_empty_lines() {
    let lines = Router::process("\n1// f{a=b} 1\n\n1// g{} 2\n", "dc=x").unwrap();
    assert_eq!(lines, vec![s("1// f{dc=x,a=b} 1"), s("1// g{dc=x} 2")]);
    assert_eq!(Router::process("", "dc=x").unwrap(), Vec::<String>::new());
    assert_eq!(Router::process("broken", "dc=x"), Err(beamium::error::ParseError::NoLabels));
}

#[test]
fn class_is_second_token() {
    assert_eq!(class_of("1// foo{} 1"), Some(s("foo{}")));
    assert_eq!(class_of("  1//   foo{}"), Some(s("foo{}")));
    assert_eq!(class_of("1//"), None);
    let sel = Some(Selector::new("^foo").unwrap());
    assert_eq!(select(&vec![s("1//"), s("1// food{} 2")], &sel), vec![s("1// food{} 2")]);
}

#[test]
fn run_ids_name_files() {
    let a = RunId::now();
    let b = RunId::now();
    assert_eq!(a.uuid.len(), 36);
    assert_ne!(a.uuid, b.uuid);
    assert!(a.sec > 1_577_836_800);
    let name = a.file_name("sink", 3, "tmp");
    assert_eq!(name, format!("sink-3-{}#{}#{}.tmp", a.sec, a.nsec, a.uuid));
}

#[test]
fn seen_set_reports_new_paths_once() {
    let mut seen = SeenSet::new();
    assert_eq!(seen.observe(&vec![s("a"), s("b")]), vec![s("a"), s("b")]);
    assert_eq!(seen.observe(&vec![s("b"), s("c")]), vec![s("c")]);
    seen.forget("c");
    assert_eq!(seen.observe(&vec![s("b"), s("c")]), vec![s("c")]);
    assert_eq!(seen.observe(&vec![s("b"), s("c")]), Vec::<String>::new());
}

#[test]
fn scenario_ttl_sweep() {
    let mut scanner = SinkScanner::new(SinkPolicy { name: s("s"), ttl_ms: 1000, max_size: 1_000_000 });
    let mut queue = SpoolQueue::new();
    let now = 100_000;
    let entries = vec![file("d/s-0-old.metrics", 10, now - 10_000), file("d/s-0-new.metrics", 10, now)];
    let ev = scanner.tick(&mut queue, &entries, now);
    assert_eq!(ev.expired, vec![s("d/s-0-old.metrics")]);
    assert!(ev.shed.is_empty());
    assert_eq!(queue.paths(), vec![s("d/s-0-new.metrics")]);
}

#[test]
fn scenario_size_cap_sheds_newest() {
    let mut scanner = SinkScanner::new(SinkPolicy { name: s("s"), ttl_ms: 60_000, max_size: 1000 });
    let mut queue = SpoolQueue::new();
    let entries = vec![
        file("d/s-0-3.metrics", 500, 10),
        file("d/s-0-1.metrics", 500, 10),
        file("d/s-0-2.metrics", 500, 10),
        file("d/other-0-1.metrics", 5000, 10),
    ];
    let ev = scanner.tick(&mut queue, &entries, 20);
    assert!(ev.expired.is_empty());
    assert_eq!(ev.shed, vec![s("d/s-0-3.metrics")]);
    assert_eq!(queue.paths(), vec![s("d/s-0-1.metrics"), s("d/s-0-2.metrics")]);
}

#[test]
fn tick_admits_new_files_once_and_drops_gone_ones() {
    let mut scanner = SinkScanner::new(SinkPolicy { name: s("s"), ttl_ms: 60_000, max_size: 1000 });
    let mut queue = SpoolQueue::new();
    let first = vec![file("d/s-0-1.metrics", 1, 0)];
    scanner.tick(&mut queue, &first, 0);
    let second = vec![file("d/s-0-1.metrics", 1, 0), file("d/s-0-2.metrics", 1, 0)];
    scanner.tick(&mut queue, &second, 0);
    assert_eq!(queue.paths(), vec![s("d/s-0-1.metrics"), s("d/s-0-2.metrics")]);
    let third = vec![file("d/s-0-2.metrics", 1, 0)];
    scanner.tick(&mut queue, &third, 0);
    assert_eq!(queue.paths(), vec![s("d/s-0-2.metrics")]);
}

#[test]
fn scenario_sink_retry_requeues_in_front() {
    let mut queue = queue_of(&["a", "b", "c"]);
    let mut sender = Sender::new();
    assert_eq!(sender.poll(Event::Ready, &mut queue).0, SenderAction::Send);
    let limits = BatchLimits { batch_count: 2, batch_size: 1000 };
    assert_eq!(sender.batch.next_file(&mut queue, limits), Some(s("a")));
    assert_eq!(sender.batch.next_file(&mut queue, limits), Some(s("b")));
    assert_eq!(sender.batch.next_file(&mut queue, limits), None);
    queue.push_back(s("d"));
    let (action, files) = sender.poll(Event::Done(HttpOutcome::Status(500)), &mut queue);
    assert_eq!(action, SenderAction::Retry);
    assert!(files.is_empty());
    assert_eq!(sender.state, State::Backoff);
    assert_eq!(sender.errors, 1);
    assert_eq!(queue.paths(), vec![s("a"), s("b"), s("c"), s("d")]);
    sender.poll(Event::Woken, &mut queue);
    assert_eq!(sender.poll(Event::Ready, &mut queue).0, SenderAction::Send);
    assert_eq!(sender.batch.next_file(&mut queue, limits), Some(s("a")));
    let (action, files) = sender.poll(Event::Done(HttpOutcome::Status(200)), &mut queue);
    assert_eq!(action, SenderAction::Commit);
    assert_eq!(files, vec![s("a")]);
    assert_eq!(sender.state, State::Idle);
    assert_eq!(queue.paths(), vec![s("b"), s("c"), s("d")]);
}

#[test]
fn transport_errors_and_timeouts_are_failures() {
    for outcome in [HttpOutcome::TransportError, HttpOutcome::Timeout, HttpOutcome::Status(199), HttpOutcome::Status(300)] {
        let mut queue = queue_of(&["a"]);
        let mut sender = Sender::new();
        sender.poll(Event::Ready, &mut queue).0;
        let limits = BatchLimits { batch_count: 5, batch_size: 5 };
        sender.batch.next_file(&mut queue, limits);
        let (action, _) = sender.poll(Event::Done(outcome), &mut queue);
        assert_eq!(action, SenderAction::Retry);
        assert_eq!(queue.paths(), vec![s("a")]);
    }
}

#[test]
fn idle_sender_waits_on_empty_queue() {
    let mut queue = SpoolQueue::new();
    let mut sender = Sender::new();
    assert_eq!(sender.poll(Event::Ready, &mut queue).0, SenderAction::Wait);
    assert_eq!(sender.state, State::Waiting);
    sender.poll(Event::Woken, &mut queue);
    assert_eq!(sender.state, State::Idle);
}

#[test]
fn batch_stops_at_size() {
    let mut queue = queue_of(&["a", "b"]);
    let mut batch = Body::new();
    let limits = BatchLimits { batch_count: 10, batch_size: 4 };
    assert_eq!(batch.next_file(&mut queue, limits), Some(s("a")));
    let mut chunk = Chunk::new();
    assert!(chunk.push_line(&mut batch, "1// f{} 1"));
    assert!(!chunk.push_line(&mut batch, "\n"));
    assert_eq!(chunk.lines, vec![s("1// f{} 1\n")]);
    assert_eq!(batch.bytes_sent, 10);
    assert_eq!(batch.next_file(&mut queue, limits), None);
    assert_eq!(queue.paths(), vec![s("b")]);
    assert!(!chunk.is_full());
}

#[test]
fn body_lines_end_with_newline() {
    assert_eq!(to_body_line("x"), Some(s("x\n")));
    assert_eq!(to_body_line("x\n"), Some(s("x\n")));
    assert_eq!(to_body_line("\n"), None);
    assert_eq!(to_body_line(""), None);
}

#[test]
fn sweep_sets_empty_files_apart() {
    let entries = vec![
        DirEntry { path: s("d/a.metrics"), name: s("a.metrics"), meta: Some((12, 5)) },
        DirEntry { path: s("d/b.metrics"), name: s("b.metrics"), meta: Some((0, 5)) },
        DirEntry { path: s("d/c.tmp"), name: s("c.tmp"), meta: Some((0, 5)) },
        DirEntry { path: s("d/e.metrics"), name: s("e.metrics"), meta: None },
        DirEntry { path: s("d/.metrics"), name: s(".metrics"), meta: Some((3, 5)) },
    ];
    let r = Scanner::scan(&entries);
    assert_eq!(r.empty, vec![s("d/b.metrics")]);
    assert_eq!(r.files.len(), 1);
    assert_eq!(r.files[0].path, "d/a.metrics");
    assert_eq!(r.files[0].size, 12);
}

#[test]
fn metrics_extension() {
    assert!(has_metrics_extension("a-1-2.metrics"));
    assert!(!has_metrics_extension(".metrics"));
    assert!(!has_metrics_extension("a.metrics.tmp"));
    assert!(!has_metrics_extension("a.metric"));
    assert!(has_metrics_extension("a..metrics"));
}

#[test]
fn scraper_config_rules() {
    let ok = Scraper::new(s("x"), s("https://h/m"), 1000, None, None, vec![], vec![], vec![], None);
    let ok = ok.ok().unwrap();
    assert_eq!(ok.format, ScraperFormat::Prometheus);
    assert_eq!(ok.pool, 1);
    let bad = Scraper::new(s("x"), s("ftp://h"), 1, None, None, vec![], vec![], vec![], None);
    assert_eq!(bad.err(), Some(ConfigError::BadUrl));
    let bad = Scraper::new(s("x"), s("http://h"), 1, Some(s("xml")), None, vec![], vec![], vec![], None);
    assert_eq!(bad.err(), Some(ConfigError::BadFormat));
    let bad = Scraper::new(s("x"), s("http://h"), 1, None, Some(vec![s("(")]), vec![], vec![], vec![], None);
    assert_eq!(bad.err(), Some(ConfigError::BadPattern));
    assert!(is_web_url("http://a"));
    assert!(!is_web_url("http:/a"));
}

#[test]
fn sink_config_defaults() {
    let sink = Sink::new(s("s"), s("http://h"), s("tok"), None, Some(s("foo")), None, None, None, None, None);
    let sink = sink.ok().unwrap();
    assert_eq!(sink.token_header, "X-Warp10-Token");
    assert_eq!(sink.ttl_ms, 3_600_000);
    assert_eq!(sink.size, 1_000_000_000);
    assert_eq!(sink.parallel, 1);
    assert!(sink.keep_alive);
    let lines = vec![s("1// foo.bar{} 1"), s("1// a.foo{} 2")];
    assert_eq!(select(&lines, &sink.selector), vec![s("1// foo.bar{} 1")]);
    let bad = Sink::new(s("s"), s("http://h"), s("t"), None, Some(s("[")), None, None, None, None, None);
    assert_eq!(bad.err(), Some(ConfigError::BadPattern));
}

#[test]
fn config_patterns_decide_success() {
    let ok = Scraper::new(s("x"), s("http://h"), 1, None, Some(vec![s("^a"), s("b+")]), vec![], vec![], vec![], None);
    assert!(ok.is_ok());
    let sink = Sink::new(s("s"), s("https://h"), s("t"), None, Some(s("a|b")), None, None, None, None, None);
    assert!(sink.is_ok());
    let bad = Sink::new(s("s"), s("h/x"), s("t"), None, None, None, None, None, None, None);
    assert_eq!(bad.err(), Some(ConfigError::BadUrl));
    assert!(Selector::new("(").is_none());
    assert!(MetricFilter::new(vec![s("a"), s("[")]).is_none());
}
