use priority_inversion::buffer::Buffer;
use priority_inversion::job::{Kind, CEILING_PRIORITY};
use priority_inversion::parse::parse_arrivals;
use priority_inversion::scheduler::{select_index, simulate, Simulation};

fn trace_lines(input: &str) -> Vec<String> {
    simulate(input.as_bytes())
        .unwrap()
        .iter()
        .map(|t| String::from_utf8(t.render()).unwrap())
        .collect()
}

fn sim_of(input: &str) -> Simulation {
    Simulation::new(parse_arrivals(input.as_bytes()).unwrap())
}

fn holder_progress(sim: &Simulation, k: Kind) -> usize {
    sim.ready.iter().filter(|j| j.id == k).map(|j| j.progress).sum()
}

#[test]
fn completion_trace_exactness() {
    assert_eq!(
        trace_lines("1 3\n4 1\n7 2"),
        vec![
            "time 3: t3 333 t3".to_string(),
            "time 6: t1 111 t1".to_string(),
            "time 16: t2 NNNNNNNNNN t2".to_string(),
        ]
    );
}

#[test]
fn completion_trace_exactness_with_trailing_blank_line() {
    assert_eq!(trace_lines("1 3\n4 1\n7 2\n"), trace_lines("1 3\n4 1\n7 2"));
    assert_eq!(trace_lines("1 3\r\n4 1\r\n7 2\r\n\r\n"), trace_lines("1 3\n4 1\n7 2"));
}

#[test]
fn priority_inversion_is_resolved() {
    let lines = trace_lines("1 3\n2 2\n3 1");
    assert_eq!(
        lines,
        vec![
            "time 1: t3 3 t3".to_string(),
            "time 4: t3 333 t3".to_string(),
            "time 2: t2 N t2".to_string(),
            "time 2: t2 N t2".to_string(),
            "time 2: t2 N t2".to_string(),
            "time 7: t1 111 t1".to_string(),
            "time 16: t2 NNNNNNNNNN t2".to_string(),
        ]
    );
    let c_done = lines.iter().position(|l| l == "time 4: t3 333 t3").unwrap();
    let a_done = lines.iter().position(|l| l == "time 7: t1 111 t1").unwrap();
    assert!(c_done < a_done);
}

#[test]
fn priority_inversion_step_by_step() {
    let mut sim = sim_of("1 3\n2 2\n3 1");
    sim.step();
    sim.step();
    sim.step();
    assert_eq!(sim.clock, 3);
    // tick 1: C ran once and holds the buffer; tick 2: B ran once.
    assert_eq!(sim.ready[0].id, Kind::T3);
    assert_eq!(sim.ready[0].progress, 1);
    assert_eq!(sim.ready[0].priority, 1);
    assert_eq!(sim.buffer.owner, Some(Kind::T3));
    // tick 3: A arrives, is blocked; C is raised to the ceiling and runs.
    sim.step();
    assert_eq!(sim.ready[0].id, Kind::T3);
    assert_eq!(sim.ready[0].priority, CEILING_PRIORITY);
    assert_eq!(sim.ready[0].progress, 2);
    let a = sim.ready.iter().find(|j| j.id == Kind::T1).unwrap();
    assert_eq!(a.progress, 0);
    // tick 4: C finishes and releases the buffer; A has still not run.
    let ts = sim.step();
    assert_eq!(ts.len(), 1);
    assert_eq!(String::from_utf8(ts[0].render()).unwrap(), "time 4: t3 333 t3");
    assert_eq!(sim.buffer.owner, None);
    assert!(sim.buffer.buf.is_empty());
    assert!(sim.ready.iter().all(|j| j.id != Kind::T3));
    assert_eq!(sim.ready.iter().find(|j| j.id == Kind::T1).unwrap().progress, 0);
    // tick 5: A runs with the buffer.
    sim.step();
    let a = sim.ready.iter().find(|j| j.id == Kind::T1).unwrap();
    assert_eq!(a.progress, 1);
    assert_eq!(a.start_time, Some(5));
    assert_eq!(sim.buffer.owner, Some(Kind::T1));
    assert_eq!(sim.buffer.buf, vec![b'1']);
}

#[test]
fn invariants_hold_at_every_tick() {
    let mut sim = sim_of("1 3\n2 2\n3 1\n3 3\n5 1\n6 2\n6 3\n9 1");
    while sim.clock < 60 {
        sim.step();
        for j in sim.ready.iter() {
            assert!(j.progress <= j.total_required);
        }
        match sim.buffer.owner {
            None => assert!(sim.buffer.buf.is_empty()),
            Some(k) => assert!(sim.buffer.buf.len() <= holder_progress(&sim, k)),
        }
        assert_eq!(sim.buffer.is_owned, sim.buffer.owner.is_some());
    }
    assert!(sim.ready.is_empty());
    assert!(sim.pending.is_empty());
}

#[test]
fn selection_prefers_earlier_of_equal_priority() {
    let mut jobs = parse_arrivals(b"0 2\n0 3\n0 3\n0 1").unwrap();
    jobs[1].elevate_priority();
    jobs[2].elevate_priority();
    assert_eq!(select_index(&jobs), 1);
    assert_eq!(select_index(&jobs), 1);
    jobs[0].elevate_priority();
    assert_eq!(select_index(&jobs), 0);
}

#[test]
fn selection_takes_greatest_priority() {
    // Archetype indices 3, 2, 1, 2: priorities 1, 2, 3, 2.
    let jobs = parse_arrivals(b"0 3\n0 2\n0 1\n0 2").unwrap();
    assert_eq!(select_index(&jobs), 2);
}

#[test]
fn repeated_runs_are_identical() {
    let input = "1 3\n2 2\n3 1\n4 3\n4 1";
    assert_eq!(trace_lines(input), trace_lines(input));
}

#[test]
fn runs_stop_at_the_horizon() {
    let mut sim = sim_of("20000 1");
    let ts = sim.run();
    assert!(ts.is_empty());
    assert_eq!(sim.clock, 10000);
    assert_eq!(sim.pending.len(), 1);
}

#[test]
fn runs_stop_when_all_jobs_are_done() {
    let mut sim = sim_of("1 1");
    let ts = sim.run();
    assert_eq!(ts.len(), 1);
    assert_eq!(sim.clock, 4);
}

#[test]
fn empty_input_gives_no_trace() {
    assert!(trace_lines("").is_empty());
    assert!(trace_lines("\n\n   \n").is_empty());
}

#[test]
fn preemption_of_a_started_job_is_reported() {
    // C runs at 1 and 2; B arrives at 3 and displaces it.
    let lines = trace_lines("1 3\n3 2");
    assert_eq!(lines[0], "time 2: t3 33 t3");
}

#[test]
fn jobs_of_one_kind_run_in_admission_order() {
    // Two C jobs arriving together: the first admitted runs to the end first.
    let lines = trace_lines("0 3\n0 3");
    assert_eq!(lines[0], "time 2: t3 333 t3");
    assert_eq!(lines[1], "time 5: t3 333 t3");
}

#[test]
fn buffer_write_by_non_holder_fails() {
    let mut b = Buffer::init();
    assert!(!b.is_held());
    assert!(!b.write_buffer(b'1', Kind::T1));
    assert!(b.buf.is_empty());
    b.set_owner(Kind::T3);
    assert!(b.is_held());
    assert!(b.job_does_own(Kind::T3));
    assert!(!b.job_does_own(Kind::T1));
    assert!(b.write_buffer(b'3', Kind::T3));
    assert!(!b.write_buffer(b'1', Kind::T1));
    assert!(!b.write_buffer(b'N', Kind::T2));
    assert_eq!(b.buf, vec![b'3']);
    assert_eq!(b.owner, Some(Kind::T3));
    b.free_buffer();
    assert!(b.buf.is_empty());
    assert!(!b.is_held());
    assert_eq!(b.owner, None);
    assert!(!b.write_buffer(b'3', Kind::T3));
}
