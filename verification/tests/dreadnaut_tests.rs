use puzzle_explorer::dreadnaut::{DreadnautJob, OrbitCanonizer};
use puzzle_explorer::generator::parse_gap_string;
use puzzle_explorer::worker_protocol::{DreadnautQueue, ResponseCollector};

fn canonizer(gap: &str) -> OrbitCanonizer {
    OrbitCanonizer::new(&parse_gap_string(gap).unwrap())
}

const ORBIT_SCRIPT: &str =
    "l=0\n-m\nAd\nd\nn=9 g\n0: 1 6;\n1: 2 7;\n2: 0;\n3: 0 4;\n4: 5;\n5: 3;\n6: 3;\n7: 8;\n8: 1.\nc -a\nx\nz\n";

#[test]
fn canonizer_script_uses_renumbered_vertices() {
    let c = canonizer("[(6,12,18)(24,28,26),(6,21,24)(8,29,12)]");
    assert_eq!(c.generate_script(), Ok(ORBIT_SCRIPT.to_string()));
    assert_eq!(c.get_hash(), "");
}

#[test]
fn canonizer_reads_the_hash_line() {
    let mut c = canonizer("[(6,12,18)(24,28,26),(6,21,24)(8,29,12)]");
    let out = "1 orbit; grpsize=3; 1 gen; 9 nodes\n[a7b74020 9bc23d37 7f67ff53]\n";
    assert_eq!(c.process_script_result(out), Ok(()));
    assert_eq!(c.get_hash(), "[o1 a7b74020 9bc23d37 7f67ff53]");
}

#[test]
fn canonizer_without_hash_line_is_an_error() {
    let mut c = canonizer("[(1,2)]");
    assert_eq!(
        c.process_script_result("cpu time = 0.00 seconds\n"),
        Err("No canonical hash in the dreadnaut output".to_string())
    );
    assert_eq!(c.get_hash(), "");
}

#[test]
fn relabelled_or_reversed_generators_give_the_same_script() {
    let a = canonizer("[(1,2,3)]").generate_script();
    let b = canonizer("[(7,8,9)]").generate_script();
    assert_eq!(a, b);
    let r = canonizer("[(3,2,1)]").generate_script();
    assert_eq!(a, r);
    let c = canonizer("[(1,2)]").generate_script();
    let d = canonizer("[(2,1),(1,2)]").generate_script();
    assert_eq!(c, d);
}

#[test]
fn error_job_reports_its_error() {
    let mut j = DreadnautJob::Error("bad orbit".to_string());
    assert_eq!(j.generate_script(), Err("bad orbit".to_string()));
    assert_eq!(j.process_script_result("[1 2 3]"), Err("bad orbit".to_string()));
}

#[test]
fn orbit_job_delegates_to_its_canonizer() {
    let mut j = DreadnautJob::Orbit(canonizer("[(6,12,18)(24,28,26),(6,21,24)(8,29,12)]"));
    assert_eq!(j.generate_script(), Ok(ORBIT_SCRIPT.to_string()));
    assert_eq!(j.process_script_result("> [a7b74020 9bc23d37 7f67ff53]\n[00000001 2 3]"), Ok(()));
    assert_eq!(j.unwrap_orbit().get_hash(), "[o1 00000001 2 3]");
}

#[test]
fn batch_frames_each_script_and_keeps_order() {
    let mut q = DreadnautQueue::new();
    let jobs = vec![
        (7, DreadnautJob::Orbit(canonizer("[(1,2)]"))),
        (9, DreadnautJob::Error("no orbit".to_string())),
    ];
    let script = q.enqueue_batch(jobs);
    let first = canonizer("[(1,2)]").generate_script().unwrap();
    assert_eq!(
        script,
        format!("\"START\\n\"\n{}\"END\\n\"\n\"START\\n\"\n\"END\\n\"\n", first)
    );
    assert_eq!(q.queue.len(), 2);
    assert_eq!(q.queue[0].0, 7);
    assert_eq!(q.queue[1].0, 9);
    assert!(q.completed_jobs.is_empty());
}

#[test]
fn answers_go_to_the_oldest_jobs_first() {
    let mut q = DreadnautQueue::new();
    q.enqueue_batch(vec![
        (1, DreadnautJob::Orbit(canonizer("[(1,2)]"))),
        (2, DreadnautJob::Orbit(canonizer("[(1,2,3)]"))),
    ]);
    let done = q.process_responses(vec!["[11111111 2 3]\n".to_string()]);
    assert!(!done);
    assert_eq!(q.queue.len(), 1);
    assert_eq!(q.completed_jobs.len(), 1);
    assert_eq!(q.completed_jobs[0].0, 1);
    let done = q.process_responses(vec!["nothing\n".to_string(), "extra".to_string()]);
    assert!(done);
    assert_eq!(q.completed_jobs.len(), 2);
    assert_eq!(q.completed_jobs[1].0, 2);
    let (_, first) = q.completed_jobs.remove(0);
    assert_eq!(first.unwrap_orbit().get_hash(), "[o1 11111111 2 3]");
    match &q.completed_jobs[0].1 {
        DreadnautJob::Error(e) => assert_eq!(e, "No canonical hash in the dreadnaut output"),
        DreadnautJob::Orbit(_) => panic!("expected an error job"),
    }
}

#[test]
fn no_answers_leave_the_queue_alone() {
    let mut q = DreadnautQueue::new();
    q.enqueue_batch(vec![(1, DreadnautJob::Orbit(canonizer("[(1,2)]")))]);
    assert!(!q.process_responses(vec![]));
    assert_eq!(q.queue.len(), 1);
}

#[test]
fn collector_gathers_lines_between_markers() {
    let mut c = ResponseCollector::new();
    let got = c.feed("noise\n> START\n> > [1 2 3]\nmore\n> END\nafter");
    assert_eq!(got, vec!["[1 2 3]\nmore\n".to_string()]);
}

#[test]
fn collector_keeps_an_open_answer_across_pieces() {
    let mut c = ResponseCollector::new();
    assert!(c.feed("START\nfirst").is_empty());
    let got = c.feed("second\nEND\nSTART\nthird\nEND");
    assert_eq!(got, vec!["first\nsecond\n".to_string(), "third\n".to_string()]);
}

#[test]
fn collector_restarts_on_a_new_start() {
    let mut c = ResponseCollector::new();
    let got = c.feed("START\nlost\nSTART\nkept\nEND\n");
    assert_eq!(got, vec!["kept\n".to_string()]);
}
