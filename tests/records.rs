use priority_inversion::job::{instantiate, make_archetypes, Job, Kind, CEILING_PRIORITY};
use priority_inversion::parse::{parse_arrivals, sort_jobs, ParseError};
use priority_inversion::trace::Trace;

fn arrivals(v: &[Job]) -> Vec<(usize, Kind)> {
    v.iter().map(|j| (j.arrival, j.id)).collect()
}

#[test]
fn archetypes_are_fixed() {
    let a = make_archetypes();
    assert_eq!((a[0].id, a[0].priority, a[0].total_required, a[0].arrival), (Kind::T1, 3, 3, 0));
    assert_eq!((a[1].id, a[1].priority, a[1].total_required, a[1].arrival), (Kind::T2, 2, 10, 0));
    assert_eq!((a[2].id, a[2].priority, a[2].total_required, a[2].arrival), (Kind::T3, 1, 3, 0));
}

#[test]
fn instantiate_resets_progress() {
    let a = make_archetypes();
    let mut j = instantiate(&a[0], 7);
    j.progress();
    j.elevate_priority();
    let k = instantiate(&j, 9);
    assert_eq!(k.arrival, 9);
    assert_eq!(k.progress, 0);
    assert_eq!(k.start_time, None);
    assert_eq!(k.priority, CEILING_PRIORITY);
    assert_eq!(k.total_required, 3);
}

#[test]
fn job_progress_and_finish() {
    let mut j = Job::init(2, Kind::T2, 2, 5);
    assert!(!j.is_finished());
    j.progress();
    assert_eq!(j.progress, 1);
    assert!(!j.is_finished());
    j.progress();
    assert!(j.is_finished());
    j.elevate_priority();
    assert_eq!(j.priority, 4);
}

#[test]
fn parse_orders_by_arrival_stably() {
    let jobs = parse_arrivals(b"5 1\n2 3\n5 2\n2 2\n1 1").unwrap();
    assert_eq!(
        arrivals(&jobs),
        vec![(1, Kind::T1), (2, Kind::T3), (2, Kind::T2), (5, Kind::T1), (5, Kind::T2)]
    );
    assert!(jobs.iter().all(|j| j.progress == 0 && j.start_time.is_none()));
    assert_eq!(jobs[2].priority, 2);
    assert_eq!(jobs[2].total_required, 10);
}

#[test]
fn parse_accepts_spacing_and_plus_sign() {
    let jobs = parse_arrivals(b"  3\t 1  \r\n\n+4 +3\n\x0c\n").unwrap();
    assert_eq!(arrivals(&jobs), vec![(3, Kind::T1), (4, Kind::T3)]);
}

#[test]
fn parse_twice_is_identical() {
    let input = b"7 2\n1 3\n4 1\n4 3\n";
    let a = parse_arrivals(input).unwrap();
    let b = parse_arrivals(input).unwrap();
    assert_eq!(a, b);
    assert_eq!(sort_jobs(&a), a);
}

#[test]
fn parse_rejects_malformed_records() {
    for bad in [
        &b"1 x"[..],
        b"1 0",
        b"1 4",
        b"a 1",
        b"1",
        b"1 2 3",
        b"1 3\n4 0\n7 2",
        b"-1 2",
        b"+ 2",
        b"1 ++2",
        b"99999999999999999999999 1",
        b"1 18446744073709551617",
    ] {
        assert_eq!(parse_arrivals(bad), Err(ParseError::MalformedRecord));
    }
}

#[test]
fn parse_accepts_largest_arrival() {
    let jobs = parse_arrivals(b"18446744073709551615 1").unwrap();
    assert_eq!(jobs[0].arrival, usize::MAX);
}

#[test]
fn parse_empty_input() {
    assert_eq!(parse_arrivals(b""), Ok(vec![]));
    assert_eq!(parse_arrivals(b"\n \n"), Ok(vec![]));
}

#[test]
fn render_formats_a_trace() {
    let t = Trace { tick: 16, id: Kind::T2, content: b"NNNNNNNNNN".to_vec() };
    assert_eq!(String::from_utf8(t.render()).unwrap(), "time 16: t2 NNNNNNNNNN t2");
    let t = Trace { tick: 0, id: Kind::T1, content: b"1".to_vec() };
    assert_eq!(String::from_utf8(t.render()).unwrap(), "time 0: t1 1 t1");
    let t = Trace { tick: 10203, id: Kind::T3, content: vec![] };
    assert_eq!(String::from_utf8(t.render()).unwrap(), "time 10203: t3  t3");
}

#[test]
fn kind_lookups() {
    assert_eq!(Kind::from_index(1), Some(Kind::T1));
    assert_eq!(Kind::from_index(2), Some(Kind::T2));
    assert_eq!(Kind::from_index(3), Some(Kind::T3));
    assert_eq!(Kind::from_index(0), None);
    assert_eq!(Kind::from_index(4), None);
    assert_eq!(Kind::T2.symbol(), b'N');
    assert!(!Kind::T2.uses_buffer());
    assert!(Kind::T3.uses_buffer());
    assert_eq!(Kind::T3.name(), b"t3".to_vec());
}
