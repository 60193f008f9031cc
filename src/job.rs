use vstd::prelude::*;

verus! {

/// The three task archetypes of the simulation.
#[derive(Clone, Copy, Debug, PartialEq, Eq, Structural)]
pub enum Kind {
    /// High priority, short, writes to the shared buffer.
    T1,
    /// Medium priority, long, never touches the shared buffer.
    T2,
    /// Low priority, short, writes to the shared buffer.
    T3,
}

/// ASCII codes of the bytes that identities and symbols are made of.
pub const LETTER_T: u8 = 116;
pub const DIGIT_ONE: u8 = 49;
pub const DIGIT_TWO: u8 = 50;
pub const DIGIT_THREE: u8 = 51;
pub const LETTER_N: u8 = 78;

/// Priority given to a job so that it finishes and releases the buffer;
/// strictly above every archetype priority.
pub const CEILING_PRIORITY: usize = 4;

/// The symbol a job of kind `k` stands for in the trace: the byte it writes
/// into the buffer, or for `T2` the byte of its placeholder content.
pub open spec fn symbol_of(k: Kind) -> u8 {
    match k {
        Kind::T1 => DIGIT_ONE,
        Kind::T2 => LETTER_N,
        Kind::T3 => DIGIT_THREE,
    }
}

/// Whether jobs of kind `k` work on the shared buffer.
pub open spec fn uses_buffer(k: Kind) -> bool {
    k != Kind::T2
}

/// The identity printed for kind `k`.
pub open spec fn name_of(k: Kind) -> Seq<u8> {
    match k {
        Kind::T1 => seq![LETTER_T, DIGIT_ONE],
        Kind::T2 => seq![LETTER_T, DIGIT_TWO],
        Kind::T3 => seq![LETTER_T, DIGIT_THREE],
    }
}

impl Kind {
    pub fn symbol(&self) -> (r: u8)
        ensures
            r == symbol_of(*self),
    {
        match self {
            Kind::T1 => DIGIT_ONE,
            Kind::T2 => LETTER_N,
            Kind::T3 => DIGIT_THREE,
        }
    }

    pub fn uses_buffer(&self) -> (r: bool)
        ensures
            r == uses_buffer(*self),
    {
        match self {
            Kind::T2 => false,
            _ => true,
        }
    }

    pub fn name(&self) -> (r: Vec<u8>)
        ensures
            r@ == name_of(*self),
    {
        let digit = match self {
            Kind::T1 => DIGIT_ONE,
            Kind::T2 => DIGIT_TWO,
            Kind::T3 => DIGIT_THREE,
        };
        let r = vec![LETTER_T, digit];
        proof {
            assert(r@ =~= name_of(*self));
        }
        r
    }

    /// The kind that an input record names by its index, 1 to 3.
    pub fn from_index(i: usize) -> (r: Option<Kind>)
        ensures
            r == kind_of_index(i as nat),
    {
        if i == 1 {
            Some(Kind::T1)
        } else if i == 2 {
            Some(Kind::T2)
        } else if i == 3 {
            Some(Kind::T3)
        } else {
            None
        }
    }
}

pub open spec fn kind_of_index(i: nat) -> Option<Kind> {
    if i == 1 {
        Some(Kind::T1)
    } else if i == 2 {
        Some(Kind::T2)
    } else if i == 3 {
        Some(Kind::T3)
    } else {
        None
    }
}

/// A concrete job: an archetype instantiated with an arrival time.
#[derive(Clone, Copy, Debug, PartialEq, Eq, Structural)]
pub struct Job {
    /// Larger is more urgent.
    pub priority: usize,
    pub id: Kind,
    /// Units of work done so far.
    pub progress: usize,
    /// Units of work the job needs in all.
    pub total_required: usize,
    pub arrival: usize,
    /// Tick of the first unit of work, once there is one.
    pub start_time: Option<usize>,
    /// Tick of the latest unit of work, once there is one.
    pub last_run: Option<usize>,
}

impl Job {
    pub open spec fn wf(&self) -> bool {
        self.progress <= self.total_required
    }

    pub open spec fn spec_is_finished(&self) -> bool {
        self.progress == self.total_required
    }

    /// A fresh job with no progress.
    pub fn init(priority: usize, id: Kind, total_required: usize, arrival: usize) -> (r: Job)
        ensures
            r == (Job {
                priority,
                id,
                progress: 0,
                total_required,
                arrival,
                start_time: None,
                last_run: None,
            }),
    {
        Job { priority, id, progress: 0, total_required, arrival, start_time: None, last_run: None }
    }

    /// One unit of work.
    pub fn progress(&mut self)
        requires
            old(self).progress < old(self).total_required,
        ensures
            *final(self) == (Job { progress: (old(self).progress + 1) as usize, ..*old(self) }),
    {
        self.progress = self.progress + 1;
    }

    pub fn is_finished(&self) -> (r: bool)
        ensures
            r == self.spec_is_finished(),
    {
        self.progress == self.total_required
    }

    /// Raise the job to the ceiling priority.
    pub fn elevate_priority(&mut self)
        ensures
            *final(self) == (Job { priority: CEILING_PRIORITY, ..*old(self) }),
    {
        self.priority = CEILING_PRIORITY;
    }
}

/// The archetype of kind `k`: its fixed priority and total work, arriving at 0.
pub open spec fn archetype_of(k: Kind) -> Job {
    match k {
        Kind::T1 => Job {
            priority: 3,
            id: Kind::T1,
            progress: 0,
            total_required: 3,
            arrival: 0,
            start_time: None,
            last_run: None,
        },
        Kind::T2 => Job {
            priority: 2,
            id: Kind::T2,
            progress: 0,
            total_required: 10,
            arrival: 0,
            start_time: None,
            last_run: None,
        },
        Kind::T3 => Job {
            priority: 1,
            id: Kind::T3,
            progress: 0,
            total_required: 3,
            arrival: 0,
            start_time: None,
            last_run: None,
        },
    }
}

/// A job that has done no work and has some to do.
pub open spec fn fresh(j: Job) -> bool {
    &&& j.progress == 0
    &&& j.total_required > 0
    &&& j.start_time.is_none()
    &&& j.last_run.is_none()
}

/// A fresh copy of `a` that arrives at `arrival`.
pub open spec fn instance_of(a: Job, arrival: usize) -> Job {
    Job { arrival, progress: 0, start_time: None, last_run: None, ..a }
}

/// The archetype of kind `k`.
pub fn archetype(k: Kind) -> (r: Job)
    ensures
        r == archetype_of(k),
{
    match k {
        Kind::T1 => Job::init(3, Kind::T1, 3, 0),
        Kind::T2 => Job::init(2, Kind::T2, 10, 0),
        Kind::T3 => Job::init(1, Kind::T3, 3, 0),
    }
}

/// The three archetypes, in the order of their input indices.
pub fn make_archetypes() -> (r: [Job; 3])
    ensures
        r@ == seq![archetype_of(Kind::T1), archetype_of(Kind::T2), archetype_of(Kind::T3)],
{
    let r = [archetype(Kind::T1), archetype(Kind::T2), archetype(Kind::T3)];
    proof {
        assert(r@ =~= seq![archetype_of(Kind::T1), archetype_of(Kind::T2), archetype_of(Kind::T3)]);
    }
    r
}

/// A job of archetype `a` arriving at `arrival`, with no work done.
pub fn instantiate(a: &Job, arrival: usize) -> (r: Job)
    ensures
        r == instance_of(*a, arrival),
{
    Job { arrival, progress: 0, start_time: None, last_run: None, ..*a }
}

} // verus!
