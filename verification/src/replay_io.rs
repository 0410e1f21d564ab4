//! Which file a match's log goes to, and when it is written.
//!
//! A log is written at most once per run, under a name that is never trusted to
//! be free: each candidate is claimed, and the walk goes on to the next until
//! one is. Running out loses the new log; overwriting would lose an old one.

use vstd::prelude::*;

use crate::sim::replay;
use crate::sim::replay::CommandLog;
use crate::text;

verus! {

/// Where replay logs go.
#[derive(Debug, Clone)]
pub struct ReplayConfig {
    /// Off by default: a log per run grows without bound.
    pub enabled: bool,
    pub dir: String,
    pub prefix: String,
    /// How many taken names to walk before giving up.
    pub max_collisions: u32,
}

impl Default for ReplayConfig {
    /// No replay logging.
    fn default() -> (r: Self)
        ensures
            !r.enabled,
            r.dir@ == "replays"@,
            r.prefix@ == "onus"@,
            r.max_collisions == 64,
    {
        ReplayConfig {
            enabled: false,
            dir: "replays".to_owned(),
            prefix: "onus".to_owned(),
            max_collisions: 64,
        }
    }
}

impl ReplayConfig {
    /// The file's name inside a data directory.
    pub const FILE: &'static str = "replay.ron";
}

/// What the writer did, if it has acted.
#[derive(Debug, Clone)]
pub enum WriteOutcome {
    /// The file it wrote.
    Written(String),
    Failed(String),
    /// Nothing was ever recorded, so there is nothing to replay.
    NothingToWrite,
}

/// An outcome, as a mathematical value.
pub enum Ended {
    Written(Seq<char>),
    Failed(Seq<char>),
    NothingToWrite,
}

impl View for WriteOutcome {
    type V = Ended;

    open spec fn view(&self) -> Ended {
        match *self {
            WriteOutcome::Written(p) => Ended::Written(p@),
            WriteOutcome::Failed(m) => Ended::Failed(m@),
            WriteOutcome::NothingToWrite => Ended::NothingToWrite,
        }
    }
}

/// The replay writer: the configuration and the single outcome.
#[derive(Debug)]
pub struct ReplayWriter {
    config: ReplayConfig,
    /// A fixed reading of the clock, for two matches in one second.
    fixed: Option<u64>,
    outcome: Option<WriteOutcome>,
    /// How many times it was asked to act.
    asks: u32,
}

/// How a log file's name starts.
pub open spec fn stem_of(prefix: Seq<char>, secs: u64, seed: u64) -> Seq<char> {
    prefix + "-"@ + text::dec(secs as nat) + "-seed"@ + text::dec(seed as nat)
}

/// The `n`-th name to try.
pub open spec fn name_of(stem: Seq<char>, n: u32) -> Seq<char> {
    if n == 0 {
        stem + ".ron"@
    } else {
        stem + "-"@ + text::dec(n as nat) + ".ron"@
    }
}

impl ReplayWriter {
    pub closed spec fn settings(&self) -> ReplayConfig {
        self.config
    }

    pub closed spec fn clock(&self) -> Option<u64> {
        self.fixed
    }

    /// The single outcome.
    pub closed spec fn ended(&self) -> Option<Ended> {
        match self.outcome {
            Some(o) => Some(o@),
            None => None,
        }
    }

    pub closed spec fn asked(&self) -> u32 {
        self.asks
    }

    pub fn new(config: ReplayConfig) -> (r: Self)
        ensures
            r.settings() == config,
            r.clock() is None,
            r.ended() is None,
            r.asked() == 0,
    {
        ReplayWriter { config, fixed: None, outcome: None, asks: 0 }
    }

    /// A writer whose clock stands still.
    pub fn with_fixed_clock(config: ReplayConfig, secs: u64) -> (r: Self)
        ensures
            r.settings() == config,
            r.clock() == Some(secs),
            r.ended() is None,
            r.asked() == 0,
    {
        ReplayWriter { config, fixed: Some(secs), outcome: None, asks: 0 }
    }

    pub fn config(&self) -> (r: &ReplayConfig)
        ensures
            *r == self.settings(),
    {
        &self.config
    }

    pub fn outcome(&self) -> (r: Option<&WriteOutcome>)
        ensures
            r is Some == self.ended() is Some,
            r matches Some(o) ==> self.ended() == Some(o@),
    {
        self.outcome.as_ref()
    }

    /// The file this run wrote, if it wrote one.
    pub fn written(&self) -> (r: Option<&str>)
        ensures
            match self.ended() {
                Some(Ended::Written(p)) => r matches Some(s) && s@ == p,
                _ => r is None,
            },
    {
        match &self.outcome {
            Some(WriteOutcome::Written(p)) => Some(p.as_str()),
            _ => None,
        }
    }

    /// Why the write failed, if it did.
    pub fn error(&self) -> (r: Option<&str>)
        ensures
            match self.ended() {
                Some(Ended::Failed(m)) => r matches Some(s) && s@ == m,
                _ => r is None,
            },
    {
        match &self.outcome {
            Some(WriteOutcome::Failed(m)) => Some(m.as_str()),
            _ => None,
        }
    }

    pub fn asks(&self) -> (r: u32)
        ensures
            r == self.asked(),
    {
        self.asks
    }

    /// The reading that goes into a name: the fixed one, or the wall clock's.
    pub fn reading(&self, wall: u64) -> (r: u64)
        ensures
            r == (match self.clock() {
                Some(s) => s,
                None => wall,
            }),
    {
        match self.fixed {
            Some(s) => s,
            None => wall,
        }
    }

    /// Is there a log to write now? The writer acts at most once, and only where
    /// it is enabled; a log that was never stamped, or that could not be read
    /// back, is not written, and that is the outcome.
    pub fn ask(&mut self, log: &CommandLog) -> (r: bool)
        ensures
            final(self).settings() == old(self).settings(),
            final(self).clock() == old(self).clock(),
            final(self).asked() == if old(self).asked() < u32::MAX {
                (old(self).asked() + 1) as u32
            } else {
                u32::MAX
            },
            ({
                let acts = old(self).ended() is None && old(self).settings().enabled;
                let stamped = log.log.content.stamp() != 0;
                let problem = log.log.write_problem();
                &&& r == (acts && stamped && problem is None)
                &&& final(self).ended() == if !acts {
                    old(self).ended()
                } else if !stamped {
                    Some(Ended::NothingToWrite)
                } else {
                    match problem {
                        Some(m) => Some(Ended::Failed(m)),
                        None => None,
                    }
                }
            }),
            r ==> log.log.read_problem() is None,
    {
        proof {
            replay::what_is_written_reads_back(log.log);
        }
        if self.asks < u32::MAX {
            self.asks = self.asks + 1;
        }
        if self.outcome.is_some() || !self.config.enabled {
            return false;
        }
        if !log.log().content.is_known() {
            self.outcome = Some(WriteOutcome::NothingToWrite);
            return false;
        }
        match log.log().check_writable() {
            Ok(_) => true,
            Err(m) => {
                self.outcome = Some(WriteOutcome::Failed(m));
                false
            },
        }
    }

    /// Enter what became of a write, unless an outcome stands.
    pub fn finish(&mut self, outcome: WriteOutcome)
        ensures
            final(self).settings() == old(self).settings(),
            final(self).clock() == old(self).clock(),
            final(self).asked() == old(self).asked(),
            final(self).ended() == match old(self).ended() {
                Some(o) => Some(o),
                None => Some(outcome@),
            },
    {
        if self.outcome.is_none() {
            self.outcome = Some(outcome);
        }
    }
}

/// How a log file's name starts.
pub fn stem(prefix: &str, secs: u64, seed: u64) -> (r: String)
    ensures
        r@ == stem_of(prefix@, secs, seed),
{
    let mut s: String = prefix.to_owned();
    s.append("-");
    text::push_dec(&mut s, secs);
    s.append("-seed");
    text::push_dec(&mut s, seed);
    s
}

/// The walk over the names that a log may get: `-1`, `-2` and so on behind a
/// name that is taken.
#[derive(Debug)]
pub struct NameWalk {
    stem: String,
    /// Names found taken so far.
    next: u64,
    max: u32,
    /// The last name that was taken, as it was found.
    last: Option<String>,
}

impl NameWalk {
    pub closed spec fn stem_view(&self) -> Seq<char> {
        self.stem@
    }

    /// Names found taken so far.
    pub closed spec fn tried(&self) -> int {
        self.next as int
    }

    pub closed spec fn limit(&self) -> u32 {
        self.max
    }

    pub closed spec fn last_view(&self) -> Option<Seq<char>> {
        match self.last {
            Some(p) => Some(p@),
            None => None,
        }
    }

    pub open spec fn wf(&self) -> bool {
        0 <= self.tried() <= self.limit() + 1
    }

    pub fn new(stem: String, max_collisions: u32) -> (r: Self)
        ensures
            r.wf(),
            r.stem_view() == stem@,
            r.tried() == 0,
            r.limit() == max_collisions,
            r.last_view() is None,
    {
        NameWalk { stem, next: 0, max: max_collisions, last: None }
    }

    /// The name to try, while there is one.
    pub fn candidate(&self) -> (r: Option<String>)
        requires
            self.wf(),
        ensures
            match r {
                Some(s) => self.tried() <= self.limit() && s@ == name_of(
                    self.stem_view(),
                    self.tried() as u32,
                ),
                None => self.tried() == self.limit() + 1,
            },
    {
        if self.next > self.max as u64 {
            return None;
        }
        let mut s: String = self.stem.as_str().to_owned();
        if self.next > 0 {
            s.append("-");
            text::push_dec(&mut s, self.next);
        }
        s.append(".ron");
        Some(s)
    }

    /// The name was taken: go on to the next.
    pub fn taken(&mut self, path: String)
        requires
            old(self).wf(),
            old(self).tried() <= old(self).limit(),
        ensures
            final(self).wf(),
            final(self).tried() == old(self).tried() + 1,
            final(self).stem_view() == old(self).stem_view(),
            final(self).limit() == old(self).limit(),
            final(self).last_view() == Some(path@),
    {
        self.next = self.next + 1;
        self.last = Some(path);
    }

    /// What is said when every name is taken.
    pub open spec fn all_taken(&self) -> Seq<char> {
        "replay log not written: "@ + text::dec((self.limit() + 1) as nat) + " names from `"@
            + self.stem_view() + ".ron` to `"@ + (match self.last_view() {
            Some(p) => p,
            None => Seq::empty(),
        }) + "` are all taken; refusing to overwrite an existing log"@
    }

    pub fn exhausted(&self) -> (r: String)
        ensures
            r@ == self.all_taken(),
    {
        let mut m: String = "replay log not written: ".to_owned();
        text::push_dec(&mut m, self.max as u64 + 1);
        m.append(" names from `");
        m.append(self.stem.as_str());
        m.append(".ron` to `");
        match &self.last {
            Some(p) => {
                m.append(p.as_str());
            },
            None => {},
        }
        m.append("` are all taken; refusing to overwrite an existing log");
        assert(m@ =~= self.all_taken());
        m
    }
}

/// What is said of a write that did not complete, and of a fragment that could
/// not be removed.
pub open spec fn failed_write(path: Seq<char>, error: Seq<char>, cleanup: Option<Seq<char>>) -> Seq<
    char,
> {
    let plain = "replay log not written: "@ + path + ": "@ + error;
    match cleanup {
        Some(c) => plain + " (and the partial file could not be removed: "@ + c
            + "; the name is now held by a fragment)"@,
        None => plain,
    }
}

pub fn write_failure(path: &str, error: &str, cleanup: Option<&str>) -> (r: String)
    ensures
        r@ == failed_write(
            path@,
            error@,
            match cleanup {
                Some(c) => Some(c@),
                None => None,
            },
        ),
{
    let mut m: String = "replay log not written: ".to_owned();
    m.append(path);
    m.append(": ");
    m.append(error);
    match cleanup {
        Some(c) => {
            m.append(" (and the partial file could not be removed: ");
            m.append(c);
            m.append("; the name is now held by a fragment)");
        },
        None => {},
    }
    m
}

// ---- laws -------------------------------------------------------------------

/// The walk never tries a name twice.
pub proof fn names_differ(stem: Seq<char>, a: u32, b: u32)
    requires
        a != b,
    ensures
        name_of(stem, a) != name_of(stem, b),
{
    reveal_strlit("-");
    reveal_strlit(".ron");
    let n = stem.len() as int;
    let (x, y) = (name_of(stem, a), name_of(stem, b));
    if x == y {
        if a == 0 {
            assert(x[n] == '.');
            assert(y[n] == '-');
        } else if b == 0 {
            assert(y[n] == '.');
            assert(x[n] == '-');
        } else {
            let (p, q) = (text::dec(a as nat), text::dec(b as nat));
            assert(x.len() == n + 1 + p.len() + 4);
            assert(y.len() == n + 1 + q.len() + 4);
            assert(x.subrange(n + 1, n + 1 + p.len() as int) =~= p);
            assert(y.subrange(n + 1, n + 1 + q.len() as int) =~= q);
            text::numerals_differ(a as nat, b as nat);
        }
    }
}

} // verus!
