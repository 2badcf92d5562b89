//! What the workers of a walk do when they find nothing to read.

use vstd::prelude::*;

verus! {

/// Upper bound on worker threads.
pub const MAX_THREADS: usize = 64;

/// Local spins before a worker with nothing to do parks.
pub const SPINS_BEFORE_PARK: u32 = 32;

/// How long a parked worker sleeps before looking again, in microseconds.
pub const PARK_MICROS: u64 = 500;

/// The number of workers a walk runs: at least one, at most
/// [`MAX_THREADS`].
pub fn clamp_threads(threads: usize) -> (r: usize)
    ensures
        1 <= r <= MAX_THREADS,
        1 <= threads <= MAX_THREADS ==> r == threads,
        threads < 1 ==> r == 1,
        threads > MAX_THREADS ==> r == MAX_THREADS,
{
    if threads < 1 {
        1
    } else if threads > MAX_THREADS {
        MAX_THREADS
    } else {
        threads
    }
}

/// What a worker that found no directory to read does next.
#[derive(Clone, Copy, PartialEq, Eq, Structural, Debug)]
pub enum Idle {
    /// No directory is outstanding anywhere: the walk is over.
    Finish,
    /// Look again at once, having spun this often.
    Spin(u32),
    /// Sleep until woken, then look again.
    Park,
}

/// Decides what a worker that found nothing does, after `spins` fruitless
/// rounds with `in_flight` directories outstanding. A directory is counted
/// before its parent is retired, so none outstanding means the walk is over.
pub fn idle(spins: u32, in_flight: usize) -> (r: Idle)
    ensures
        r is Finish <==> in_flight == 0,
        r matches Idle::Spin(n) ==> n == spins + 1 && n < SPINS_BEFORE_PARK,
        r is Park <==> in_flight != 0 && spins + 1 >= SPINS_BEFORE_PARK,
{
    if in_flight == 0 {
        Idle::Finish
    } else if spins < SPINS_BEFORE_PARK - 1 {
        Idle::Spin(spins + 1)
    } else {
        Idle::Park
    }
}

/// What a worker is doing.
#[derive(Clone, Copy, PartialEq, Eq, Structural, Debug)]
pub enum Work {
    /// Looking for a directory to read, after this many fruitless rounds.
    Look(u32),
    /// Reading a directory, queueing its children and retiring it.
    Read,
    /// Holding the lock under which sleepers are woken, about to sleep.
    Park,
    /// Sleeping until woken or until the time is up.
    Sleep,
    /// Done.
    Finish,
}

/// What a worker does next: `found` says whether it found a directory, and
/// `in_flight` how many are outstanding.
pub open spec fn work_after(state: Work, found: bool, in_flight: int) -> Work {
    match state {
        Work::Look(spins) => if found {
            Work::Read
        } else if in_flight == 0 {
            Work::Finish
        } else if spins + 1 < SPINS_BEFORE_PARK {
            Work::Look((spins + 1) as u32)
        } else {
            Work::Park
        },
        Work::Read => Work::Look(0),
        Work::Park => if in_flight == 0 {
            Work::Finish
        } else {
            Work::Sleep
        },
        Work::Sleep => Work::Look(0),
        Work::Finish => Work::Finish,
    }
}

/// What a worker does next. The number outstanding is looked at once more
/// under the lock: the last directory may have been retired in between, and
/// its wake-up sent to nobody.
pub fn work(state: Work, found: bool, in_flight: usize) -> (r: Work)
    ensures
        r == work_after(state, found, in_flight as int),
{
    match state {
        Work::Look(spins) => if found {
            Work::Read
        } else {
            match idle(spins, in_flight) {
                Idle::Finish => Work::Finish,
                Idle::Spin(spins) => Work::Look(spins),
                Idle::Park => Work::Park,
            }
        },
        Work::Read => Work::Look(0),
        Work::Park => if in_flight == 0 {
            Work::Finish
        } else {
            Work::Sleep
        },
        Work::Sleep => Work::Look(0),
        Work::Finish => Work::Finish,
    }
}

/// Whether the directory being retired was the last outstanding one, `before`
/// being how many were: then nothing will be queued again, and every sleeper
/// is to be woken.
pub fn was_last(before: usize) -> (r: bool)
    ensures
        r == (before == 1),
{
    before == 1
}

/// What the workers of a walk have in hand, taken together.
pub struct Tally {
    /// Directories in the queues.
    pub queued: nat,
    /// Directories being read.
    pub reading: nat,
    /// Directories found and counted, but not yet in a queue.
    pub announced: nat,
    /// How many directories are counted as outstanding.
    pub counted: nat,
}

/// What any one worker may do to that.
pub enum Move {
    /// Take a directory from a queue.
    Take,
    /// Count this many children of the directory it reads.
    Announce(nat),
    /// Put a child that was counted on a queue.
    Push,
    /// Be done with the directory it read.
    Retire,
}

/// What the workers have in hand after a move; `None` where it cannot be
/// made.
pub open spec fn tally_after(t: Tally, m: Move) -> Option<Tally> {
    match m {
        Move::Take => if t.queued > 0 {
            Some(Tally { queued: (t.queued - 1) as nat, reading: t.reading + 1, ..t })
        } else {
            None
        },
        Move::Announce(n) => if t.reading > 0 {
            Some(Tally { announced: t.announced + n, counted: t.counted + n, ..t })
        } else {
            None
        },
        Move::Push => if t.announced > 0 {
            Some(Tally { announced: (t.announced - 1) as nat, queued: t.queued + 1, ..t })
        } else {
            None
        },
        Move::Retire => if t.reading > 0 {
            Some(Tally { reading: (t.reading - 1) as nat, counted: (t.counted - 1) as nat, ..t })
        } else {
            None
        },
    }
}

/// What the workers have in hand after moves, whoever makes them: at first
/// the directories that the walk starts with are queued, and counted.
pub open spec fn tally(initial: nat, moves: Seq<Move>) -> Option<Tally>
    decreases moves.len(),
{
    if moves.len() == 0 {
        Some(Tally { queued: initial, reading: 0, announced: 0, counted: initial })
    } else {
        match tally(initial, moves.drop_last()) {
            Some(t) => tally_after(t, moves.last()),
            None => None,
        }
    }
}

/// What is counted is what is in hand.
proof fn lemma_counted(initial: nat, moves: Seq<Move>)
    ensures
        tally(initial, moves) matches Some(t) ==> t.counted == t.queued + t.reading + t.announced,
    decreases moves.len(),
{
    if moves.len() > 0 {
        lemma_counted(initial, moves.drop_last());
    }
}

/// No worker stops early: whatever the workers did, in whatever order, one
/// that finishes on the count of that moment leaves no directory queued, none
/// being read and none found but not yet queued.
pub proof fn law_finished_worker_leaves_nothing(
    initial: nat,
    moves: Seq<Move>,
    state: Work,
    found: bool,
)
    requires
        tally(initial, moves) is Some,
        state != Work::Finish,
    ensures
        work_after(state, found, (tally(initial, moves)->0).counted as int) is Finish ==> {
            &&& (tally(initial, moves)->0).queued == 0
            &&& (tally(initial, moves)->0).reading == 0
            &&& (tally(initial, moves)->0).announced == 0
        },
{
    lemma_counted(initial, moves);
}

/// Where a worker looks for a directory to read: its own queue, then the
/// queue that the root's children were put on, then every other worker's.
#[derive(Clone, Copy, PartialEq, Eq, Structural, Debug)]
pub enum Source {
    Own,
    Seed,
    Worker(usize),
}

/// The queues worker `me` of `workers` looks into, in order.
pub open spec fn search_order(me: int, workers: int) -> Seq<Source> {
    seq![Source::Own, Source::Seed] + others(me, workers)
}

/// Every worker below `workers` but `me`, in order.
pub open spec fn others(me: int, workers: int) -> Seq<Source>
    decreases workers,
{
    if workers <= 0 {
        Seq::empty()
    } else if workers - 1 == me {
        others(me, workers - 1)
    } else {
        others(me, workers - 1).push(Source::Worker((workers - 1) as usize))
    }
}

/// The queues worker `me` of `workers` looks into, in order.
pub fn sources(me: usize, workers: usize) -> (r: Vec<Source>)
    ensures
        r@ == search_order(me as int, workers as int),
{
    let mut out: Vec<Source> = Vec::new();
    out.push(Source::Own);
    out.push(Source::Seed);
    let mut i: usize = 0;
    assert(out@ =~= seq![Source::Own, Source::Seed] + others(me as int, 0));
    while i < workers
        invariant
            i <= workers,
            out@ == seq![Source::Own, Source::Seed] + others(me as int, i as int),
        decreases workers - i,
    {
        if i != me {
            out.push(Source::Worker(i));
        }
        i += 1;
        assert(out@ =~= seq![Source::Own, Source::Seed] + others(me as int, i as int));
    }
    out
}

} // verus!
