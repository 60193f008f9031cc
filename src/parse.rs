use vstd::prelude::*;
use crate::job::{Job, Kind, archetype, archetype_of, fresh, instance_of, instantiate, kind_of_index};

verus! {

/// Why a job list was refused.
#[derive(Clone, Copy, Debug, PartialEq, Eq, Structural)]
pub enum ParseError {
    /// A line that is not blank and is not two unsigned integers, the second
    /// of them 1, 2 or 3.
    MalformedRecord,
}

pub const NEWLINE: u8 = 10;
pub const PLUS: u8 = 43;
pub const ZERO: u8 = 48;
pub const NINE: u8 = 57;

/// ASCII whitespace: space, tab, line feed, form feed, carriage return.
pub open spec fn is_space(b: u8) -> bool {
    b == 32 || b == 9 || b == 10 || b == 12 || b == 13
}

/// An ASCII decimal digit.
pub open spec fn is_digit(b: u8) -> bool {
    ZERO <= b <= NINE
}

/// The end of the line that starts at `i`: its newline, or the end of `s`.
pub open spec fn line_end(s: Seq<u8>, i: int) -> int
    decreases s.len() - i,
{
    if i >= s.len() {
        s.len() as int
    } else if s[i] == NEWLINE {
        i
    } else {
        line_end(s, i + 1)
    }
}

/// The first index in `i..e` that holds no whitespace, or `e`.
pub open spec fn skip_space(s: Seq<u8>, i: int, e: int) -> int
    decreases e - i,
{
    if i >= e {
        e
    } else if is_space(s[i]) {
        skip_space(s, i + 1, e)
    } else {
        i
    }
}

/// The first index in `i..e` that holds whitespace, or `e`.
pub open spec fn word_end(s: Seq<u8>, i: int, e: int) -> int
    decreases e - i,
{
    if i >= e {
        e
    } else if is_space(s[i]) {
        i
    } else {
        word_end(s, i + 1, e)
    }
}

/// The value of the decimal digits in `s[a..b)`.
pub open spec fn digits_value(s: Seq<u8>, a: int, b: int) -> nat
    decreases b - a,
{
    if b <= a {
        0
    } else {
        digits_value(s, a, b - 1) * 10 + (s[b - 1] - ZERO) as nat
    }
}

pub open spec fn all_digits(s: Seq<u8>, a: int, b: int) -> bool {
    forall|k: int| a <= k < b ==> #[trigger] is_digit(s[k])
}

/// The field `s[a..b)` read as a `usize`: an optional `+`, then one or more
/// decimal digits whose value fits.
pub open spec fn field_value(s: Seq<u8>, a: int, b: int) -> Option<usize> {
    let d = if a < b && s[a] == PLUS {
        a + 1
    } else {
        a
    };
    if d < b && all_digits(s, d, b) && digits_value(s, d, b) <= usize::MAX {
        Some(digits_value(s, d, b) as usize)
    } else {
        None
    }
}

/// The line `s[i..e)`: `Ok(None)` when blank, the job it names when it is an
/// arrival time and an archetype index, one or more spaces apart.
pub open spec fn line_record(s: Seq<u8>, i: int, e: int) -> Result<Option<Job>, ParseError> {
    let a1 = skip_space(s, i, e);
    let b1 = word_end(s, a1, e);
    let a2 = skip_space(s, b1, e);
    let b2 = word_end(s, a2, e);
    let a3 = skip_space(s, b2, e);
    if a1 == e {
        Ok(None)
    } else if a2 == e || a3 != e {
        Err(ParseError::MalformedRecord)
    } else {
        match (field_value(s, a1, b1), field_value(s, a2, b2)) {
            (Some(t), Some(x)) => match kind_of_index(x as nat) {
                Some(k) => Ok(Some(instance_of(archetype_of(k), t))),
                None => Err(ParseError::MalformedRecord),
            },
            _ => Err(ParseError::MalformedRecord),
        }
    }
}

proof fn lemma_line_end_bounds(s: Seq<u8>, i: int)
    requires
        0 <= i <= s.len(),
    ensures
        i <= line_end(s, i) <= s.len(),
        line_end(s, i) < s.len() ==> s[line_end(s, i)] == NEWLINE,
    decreases s.len() - i,
{
    if i < s.len() && s[i] != NEWLINE {
        lemma_line_end_bounds(s, i + 1);
    }
}

/// The jobs named by the lines of `s` from index `i` on, in input order.
pub open spec fn jobs_from(s: Seq<u8>, i: int) -> Result<Seq<Job>, ParseError>
    decreases s.len() - i,
    via jobs_from_decreases
{
    if i < 0 || i > s.len() {
        Ok(seq![])
    } else {
        let e = line_end(s, i);
        match line_record(s, i, e) {
            Err(x) => Err(x),
            Ok(rec) => {
                let rest = if e < s.len() {
                    jobs_from(s, e + 1)
                } else {
                    Ok(seq![])
                };
                match rest {
                    Err(x) => Err(x),
                    Ok(v) => Ok(
                        match rec {
                            Some(j) => seq![j] + v,
                            None => v,
                        },
                    ),
                }
            },
        }
    }
}

#[via_fn]
proof fn jobs_from_decreases(s: Seq<u8>, i: int) {
    if 0 <= i <= s.len() {
        lemma_line_end_bounds(s, i);
    }
}

fn is_space_byte(b: u8) -> (r: bool)
    ensures
        r == is_space(b),
{
    b == 32 || b == 9 || b == 10 || b == 12 || b == 13
}

fn find_line_end(s: &[u8], i: usize) -> (r: usize)
    requires
        i <= s@.len(),
    ensures
        r as int == line_end(s@, i as int),
{
    let mut j: usize = i;
    while j < s.len() && s[j] != NEWLINE
        invariant
            i <= j <= s@.len(),
            line_end(s@, i as int) == line_end(s@, j as int),
        decreases s@.len() - j,
    {
        j = j + 1;
    }
    j
}

fn skip_spaces(s: &[u8], i: usize, e: usize) -> (r: usize)
    requires
        i <= e <= s@.len(),
    ensures
        r as int == skip_space(s@, i as int, e as int),
        i <= r <= e,
{
    let mut j: usize = i;
    while j < e && is_space_byte(s[j])
        invariant
            i <= j <= e <= s@.len(),
            skip_space(s@, i as int, e as int) == skip_space(s@, j as int, e as int),
        decreases e - j,
    {
        j = j + 1;
    }
    j
}

fn find_word_end(s: &[u8], i: usize, e: usize) -> (r: usize)
    requires
        i <= e <= s@.len(),
    ensures
        r as int == word_end(s@, i as int, e as int),
        i <= r <= e,
{
    let mut j: usize = i;
    while j < e && !is_space_byte(s[j])
        invariant
            i <= j <= e <= s@.len(),
            word_end(s@, i as int, e as int) == word_end(s@, j as int, e as int),
        decreases e - j,
    {
        j = j + 1;
    }
    j
}

proof fn lemma_digits_monotone(s: Seq<u8>, a: int, c: int, b: int)
    requires
        a <= c <= b,
        all_digits(s, a, b),
    ensures
        digits_value(s, a, c) <= digits_value(s, a, b),
    decreases b - c,
{
    if c < b {
        lemma_digits_monotone(s, a, c, b - 1);
        assert(is_digit(s[b - 1]));
    }
}

/// Reads the field `s[a..b)`; `None` unless it is an unsigned integer that
/// fits in `usize`.
fn parse_field(s: &[u8], a: usize, b: usize) -> (r: Option<usize>)
    requires
        a <= b <= s@.len(),
    ensures
        r == field_value(s@, a as int, b as int),
{
    let d: usize = if a < b && s[a] == PLUS {
        a + 1
    } else {
        a
    };
    if d >= b {
        return None;
    }
    let mut v: usize = 0;
    let mut k: usize = d;
    while k < b
        invariant
            d <= k <= b <= s@.len(),
            d == (if a < b && s@[a as int] == PLUS { a + 1 } else { a as int }),
            all_digits(s@, d as int, k as int),
            v as nat == digits_value(s@, d as int, k as int),
        decreases b - k,
    {
        let c = s[k];
        if c < ZERO || c > NINE {
            proof {
                assert(!is_digit(s@[k as int]));
            }
            return None;
        }
        let digit = (c - ZERO) as usize;
        let next = match v.checked_mul(10) {
            Some(m) => m.checked_add(digit),
            None => None,
        };
        match next {
            Some(n) => {
                v = n;
                k = k + 1;
            },
            None => {
                proof {
                    assert(digits_value(s@, d as int, k + 1) > usize::MAX);
                    if all_digits(s@, d as int, b as int) {
                        lemma_digits_monotone(s@, d as int, k + 1, b as int);
                    }
                }
                return None;
            },
        }
    }
    Some(v)
}

/// Reads the line `s[i..e)`.
fn parse_line(s: &[u8], i: usize, e: usize) -> (r: Result<Option<Job>, ParseError>)
    requires
        i <= e <= s@.len(),
    ensures
        r == line_record(s@, i as int, e as int),
{
    let a1 = skip_spaces(s, i, e);
    if a1 == e {
        return Ok(None);
    }
    let b1 = find_word_end(s, a1, e);
    let a2 = skip_spaces(s, b1, e);
    if a2 == e {
        return Err(ParseError::MalformedRecord);
    }
    let b2 = find_word_end(s, a2, e);
    let a3 = skip_spaces(s, b2, e);
    if a3 != e {
        return Err(ParseError::MalformedRecord);
    }
    match (parse_field(s, a1, b1), parse_field(s, a2, b2)) {
        (Some(t), Some(x)) => match Kind::from_index(x) {
            Some(k) => Ok(Some(instantiate(&archetype(k), t))),
            None => Err(ParseError::MalformedRecord),
        },
        _ => Err(ParseError::MalformedRecord),
    }
}

/// `r` with `acc` put before the jobs it holds.
pub open spec fn after(acc: Seq<Job>, r: Result<Seq<Job>, ParseError>) -> Result<Seq<Job>, ParseError> {
    match r {
        Ok(v) => Ok(acc + v),
        Err(x) => Err(x),
    }
}

/// The jobs that the lines of `s` name, in input order.
fn parse_records(s: &[u8]) -> (r: Result<Vec<Job>, ParseError>)
    ensures
        match r {
            Ok(v) => jobs_from(s@, 0) == Ok::<Seq<Job>, ParseError>(v@),
            Err(x) => jobs_from(s@, 0) == Err::<Seq<Job>, ParseError>(x),
        },
{
    let mut out: Vec<Job> = Vec::new();
    let mut i: usize = 0;
    let mut more = true;
    proof {
        assert(after(out@, jobs_from(s@, 0)) == jobs_from(s@, 0)) by {
            match jobs_from(s@, 0) {
                Ok(v) => assert(out@ + v =~= v),
                Err(_) => {},
            }
        }
    }
    while more
        invariant
            i <= s@.len(),
            more ==> jobs_from(s@, 0) == after(out@, jobs_from(s@, i as int)),
            !more ==> jobs_from(s@, 0) == Ok::<Seq<Job>, ParseError>(out@),
        decreases s@.len() + 1 - i + if more { 1int } else { 0int },
    {
        let e = find_line_end(s, i);
        proof {
            lemma_line_end_bounds(s@, i as int);
        }
        let ghost acc = out@;
        match parse_line(s, i, e) {
            Err(x) => {
                return Err(x);
            },
            Ok(rec) => {
                if let Some(j) = rec {
                    out.push(j);
                }
            },
        }
        if e < s.len() {
            proof {
                match jobs_from(s@, e + 1) {
                    Ok(v) => {
                        if let Ok(Some(j)) = line_record(s@, i as int, e as int) {
                            assert(acc + (seq![j] + v) =~= out@ + v);
                        }
                    },
                    Err(_) => {},
                }
            }
            i = e + 1;
        } else {
            proof {
                if let Ok(Some(j)) = line_record(s@, i as int, e as int) {
                    assert(acc + (seq![j] + seq![]) =~= out@);
                } else {
                    assert(acc + seq![] =~= out@);
                }
            }
            more = false;
        }
    }
    Ok(out)
}

/// `q` with `j` placed after every job that arrives no later than it, when
/// `q` is ordered by arrival.
pub open spec fn insert_by_arrival(q: Seq<Job>, j: Job) -> Seq<Job>
    decreases q.len(),
{
    if q.len() == 0 || q.last().arrival <= j.arrival {
        q.push(j)
    } else {
        insert_by_arrival(q.drop_last(), j).push(q.last())
    }
}

/// `q` ordered by arrival; jobs that arrive together keep their order.
pub open spec fn sort_by_arrival(q: Seq<Job>) -> Seq<Job>
    decreases q.len(),
{
    if q.len() == 0 {
        q
    } else {
        insert_by_arrival(sort_by_arrival(q.drop_last()), q.last())
    }
}

/// Every job arrives no later than the jobs after it.
pub open spec fn sorted_by_arrival(q: Seq<Job>) -> bool {
    forall|a: int, b: int| 0 <= a < b < q.len() ==> q[a].arrival <= q[b].arrival
}

/// What a job list in `s` parses to: its jobs ordered by arrival, or the
/// error of its first bad line.
pub open spec fn parse_spec(s: Seq<u8>) -> Result<Seq<Job>, ParseError> {
    match jobs_from(s, 0) {
        Ok(v) => Ok(sort_by_arrival(v)),
        Err(x) => Err(x),
    }
}

proof fn lemma_insert_split(q: Seq<Job>, j: Job, p: int)
    requires
        0 <= p <= q.len(),
        forall|m: int| p <= m < q.len() ==> #[trigger] q[m].arrival > j.arrival,
    ensures
        insert_by_arrival(q, j) == insert_by_arrival(q.take(p), j) + q.skip(p),
    decreases q.len(),
{
    if p == q.len() {
        assert(q.take(p) =~= q);
        assert(insert_by_arrival(q, j) + q.skip(p) =~= insert_by_arrival(q, j));
    } else {
        let d = q.drop_last();
        assert(q.last().arrival > j.arrival);
        lemma_insert_split(d, j, p);
        assert(d.take(p) =~= q.take(p));
        assert(insert_by_arrival(d.take(p), j) + d.skip(p) + seq![q.last()]
            =~= insert_by_arrival(q.take(p), j) + q.skip(p));
    }
}

/// Whatever holds of every job of `q` and of `j` holds of every job of
/// `insert_by_arrival(q, j)`.
pub proof fn lemma_insert_all(q: Seq<Job>, j: Job, f: spec_fn(Job) -> bool)
    requires
        forall|m: int| 0 <= m < q.len() ==> f(#[trigger] q[m]),
        f(j),
    ensures
        insert_by_arrival(q, j).len() == q.len() + 1,
        forall|m: int| 0 <= m < insert_by_arrival(q, j).len() ==> f(#[trigger] insert_by_arrival(q, j)[m]),
    decreases q.len(),
{
    if q.len() > 0 && q.last().arrival > j.arrival {
        let d = q.drop_last();
        lemma_insert_all(d, j, f);
        assert(f(q[q.len() - 1]));
    }
}

/// Whatever holds of every job of `q` holds of every job of its ordering.
pub proof fn lemma_sort_all(q: Seq<Job>, f: spec_fn(Job) -> bool)
    requires
        forall|m: int| 0 <= m < q.len() ==> f(#[trigger] q[m]),
    ensures
        sort_by_arrival(q).len() == q.len(),
        forall|m: int| 0 <= m < sort_by_arrival(q).len() ==> f(#[trigger] sort_by_arrival(q)[m]),
    decreases q.len(),
{
    if q.len() > 0 {
        lemma_sort_all(q.drop_last(), f);
        assert(f(q[q.len() - 1]));
        lemma_insert_all(sort_by_arrival(q.drop_last()), q.last(), f);
    }
}

proof fn lemma_insert_sorted(q: Seq<Job>, j: Job)
    requires
        sorted_by_arrival(q),
    ensures
        sorted_by_arrival(insert_by_arrival(q, j)),
    decreases q.len(),
{
    if q.len() > 0 && q.last().arrival > j.arrival {
        let d = q.drop_last();
        let top = q.last().arrival;
        lemma_insert_sorted(d, j);
        assert forall|m: int| 0 <= m < d.len() implies (|x: Job| x.arrival <= top)(#[trigger] d[m]) by {
            assert(d[m] == q[m]);
        }
        lemma_insert_all(d, j, |x: Job| x.arrival <= top);
        let r = insert_by_arrival(d, j);
        assert forall|a: int, b: int| 0 <= a < b < r.len() + 1 implies #[trigger] r.push(q.last())[a].arrival
            <= #[trigger] r.push(q.last())[b].arrival by {
            if b == r.len() {
                assert((|x: Job| x.arrival <= top)(r[a]));
            }
        }
    }
}

/// The ordering of any job list is ordered by arrival.
pub proof fn lemma_sort_sorted(q: Seq<Job>)
    ensures
        sorted_by_arrival(sort_by_arrival(q)),
    decreases q.len(),
{
    if q.len() > 0 {
        lemma_sort_sorted(q.drop_last());
        lemma_insert_sorted(sort_by_arrival(q.drop_last()), q.last());
    }
}

/// The ordering of a job list holds the same jobs, as many times each.
pub proof fn lemma_sort_permutes(q: Seq<Job>)
    ensures
        sort_by_arrival(q).to_multiset() == q.to_multiset(),
    decreases q.len(),
{
    broadcast use vstd::seq_lib::to_multiset_build;
    if q.len() > 0 {
        lemma_sort_permutes(q.drop_last());
        lemma_insert_permutes(sort_by_arrival(q.drop_last()), q.last());
        assert(q.drop_last().push(q.last()) =~= q);
    } else {
        assert(sort_by_arrival(q) =~= q);
    }
}

proof fn lemma_insert_permutes(q: Seq<Job>, j: Job)
    ensures
        insert_by_arrival(q, j).to_multiset() == q.to_multiset().insert(j),
    decreases q.len(),
{
    broadcast use vstd::seq_lib::to_multiset_build;
    if q.len() > 0 && q.last().arrival > j.arrival {
        let d = q.drop_last();
        lemma_insert_permutes(d, j);
        assert(d.push(q.last()) =~= q);
        assert(d.to_multiset().insert(j).insert(q.last()) =~= d.to_multiset().insert(q.last()).insert(j));
    }
}

/// A job list already ordered by arrival is its own ordering.
pub proof fn lemma_sort_of_sorted(q: Seq<Job>)
    requires
        sorted_by_arrival(q),
    ensures
        sort_by_arrival(q) == q,
    decreases q.len(),
{
    if q.len() > 0 {
        let d = q.drop_last();
        assert(sorted_by_arrival(d));
        lemma_sort_of_sorted(d);
        if d.len() > 0 {
            assert(d.last().arrival <= q.last().arrival);
        }
        assert(d.push(q.last()) =~= q);
    }
}

/// Ordering by arrival twice gives what ordering once gives.
pub proof fn lemma_sort_idempotent(q: Seq<Job>)
    ensures
        sort_by_arrival(sort_by_arrival(q)) == sort_by_arrival(q),
{
    lemma_sort_sorted(q);
    lemma_sort_of_sorted(sort_by_arrival(q));
}

/// Puts `j` into `out`, which is ordered by arrival, after every job that
/// arrives no later.
fn insert_job(out: &mut Vec<Job>, j: Job)
    ensures
        final(out)@ == insert_by_arrival(old(out)@, j),
{
    let mut p: usize = out.len();
    while p > 0 && out[p - 1].arrival > j.arrival
        invariant
            p <= out@.len(),
            forall|m: int| p <= m < out@.len() ==> #[trigger] out@[m].arrival > j.arrival,
            out@ == old(out)@,
        decreases p,
    {
        p = p - 1;
    }
    proof {
        let q = out@;
        lemma_insert_split(q, j, p as int);
        assert(p > 0 ==> q.take(p as int).last() == q[p - 1]);
        assert(q.take(p as int).push(j) + q.skip(p as int) =~= q.insert(p as int, j));
    }
    out.insert(p, j);
}

/// `v` ordered by arrival; jobs that arrive together keep their order.
pub fn sort_jobs(v: &Vec<Job>) -> (r: Vec<Job>)
    ensures
        r@ == sort_by_arrival(v@),
{
    let mut out: Vec<Job> = Vec::new();
    let mut i: usize = 0;
    proof {
        assert(v@.take(0) =~= Seq::<Job>::empty());
        assert(out@ =~= sort_by_arrival(v@.take(0)));
    }
    while i < v.len()
        invariant
            i <= v@.len(),
            out@ == sort_by_arrival(v@.take(i as int)),
        decreases v@.len() - i,
    {
        insert_job(&mut out, v[i]);
        i = i + 1;
        proof {
            assert(v@.take(i as int).drop_last() =~= v@.take(i - 1));
        }
    }
    proof {
        assert(v@.take(i as int) =~= v@);
    }
    out
}

/// Reads a job list: one `<arrival time> <archetype index>` record per line,
/// blank lines skipped, and returns its jobs ordered by arrival (jobs that
/// arrive together in input order), or `MalformedRecord` if any line is bad.
pub fn parse_arrivals(input: &[u8]) -> (r: Result<Vec<Job>, ParseError>)
    ensures
        match r {
            Ok(v) => parse_spec(input@) == Ok::<Seq<Job>, ParseError>(v@),
            Err(x) => parse_spec(input@) == Err::<Seq<Job>, ParseError>(x),
        },
{
    match parse_records(input) {
        Ok(v) => Ok(sort_jobs(&v)),
        Err(x) => Err(x),
    }
}

/// Parsing is a function of the input: the same input gives the same jobs
/// in the same order, or the same error.
pub proof fn lemma_parse_deterministic(a: Seq<u8>, b: Seq<u8>)
    requires
        a == b,
    ensures
        parse_spec(a) == parse_spec(b),
{
}

proof fn lemma_jobs_from_fresh(s: Seq<u8>, i: int)
    ensures
        jobs_from(s, i) matches Ok(v) ==> forall|m: int| 0 <= m < v.len() ==> fresh(#[trigger] v[m]),
    decreases s.len() - i,
{
    if 0 <= i <= s.len() {
        let e = line_end(s, i);
        lemma_line_end_bounds(s, i);
        if e < s.len() {
            lemma_jobs_from_fresh(s, e + 1);
        }
        if let Ok(v) = jobs_from(s, i) {
            if let Ok(Some(j)) = line_record(s, i, e) {
                let w = if e < s.len() { jobs_from(s, e + 1)->Ok_0 } else { seq![] };
                assert(v == seq![j] + w);
                assert forall|m: int| 0 <= m < v.len() implies fresh(#[trigger] v[m]) by {
                    if m > 0 {
                        assert(v[m] == w[m - 1]);
                    }
                }
            }
        }
    }
}

/// Every job that a job list parses to is fresh.
pub proof fn lemma_parsed_fresh(s: Seq<u8>)
    ensures
        parse_spec(s) matches Ok(v) ==> forall|m: int| 0 <= m < v.len() ==> fresh(#[trigger] v[m]),
{
    lemma_jobs_from_fresh(s, 0);
    if let Ok(v) = jobs_from(s, 0) {
        lemma_sort_all(v, |j: Job| fresh(j));
    }
}

} // verus!
