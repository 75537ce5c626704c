//! Lines of progress, printed now and then.

use crate::engine::Progress;
use crate::error::{reason, Error, Result};
use vstd::prelude::*;

verus! {

/// How often a report has a line: every so many nanoseconds of the run, or generations.
#[derive(Clone, Copy, Debug, PartialEq, Eq, Structural)]
pub enum Every {
    /// After the first generation to end in each new interval of this many nanoseconds.
    Time(u128),
    /// Every so many generations.
    Generations(u64),
}

/// Whether a line is due after the generation of `progress`, for a report that wrote its last line
/// at `last` (generation and nanoseconds) if any: the first line always, the first line of a new
/// run (whose time starts again), then as `every` says.
pub open spec fn line_due(last: Option<(u64, u128)>, every: Every, generation: u64, elapsed: u128) -> bool {
    match last {
        None => true,
        Some((last_generation, last_elapsed)) => {
            if elapsed < last_elapsed {
                true
            } else {
                match every {
                    Every::Time(interval) => interval == 0 || elapsed / interval > last_elapsed / interval,
                    Every::Generations(generations) => generation != last_generation && generation % generations == 0,
                }
            }
        }
    }
}

// when the lines come: the schedule and the last line
#[derive(Clone, Copy, Debug)]
struct Schedule {
    every: Every,
    // the generation and time of the last line
    last: Option<(u64, u128)>,
}

impl Schedule {
    // a whole number of generations between lines
    #[verifier::type_invariant]
    spec fn is_valid(self) -> bool {
        self.every matches Every::Generations(g) ==> g >= 1
    }

    fn update(&mut self, generation: u64, elapsed: u128) -> (due: bool)
        ensures
            due == line_due(old(self).last, old(self).every, generation, elapsed),
            final(self).last == (if due { Some((generation, elapsed)) } else { old(self).last }),
            final(self).every == old(self).every,
    {
        proof {
            use_type_invariant(&*self);
        }
        let due = match self.last {
            None => true,
            Some((last_generation, last_elapsed)) => {
                if elapsed < last_elapsed {
                    true
                } else {
                    match self.every {
                        Every::Time(interval) => interval == 0 || elapsed / interval > last_elapsed / interval,
                        Every::Generations(generations) => generation != last_generation && generation % generations == 0,
                    }
                }
            }
        };
        if due {
            self.last = Some((generation, elapsed));
        }
        due
    }
}

/// Prints a line of progress now and then: after the initial population (or the first generation
/// of a run that continues), then once a second by default. This type decides when a line is due
/// and keeps the writer, which the caller of [`Report::update`] writes the line to.
#[derive(Debug)]
pub struct Report<W> {
    writer: W,
    schedule: Schedule,
}

impl<W> Report<W> {
    /// The schedule.
    pub closed spec fn spec_every(&self) -> Every {
        self.schedule.every
    }

    /// The generation and time of the last line, if any.
    pub closed spec fn spec_last(&self) -> Option<(u64, u128)> {
        self.schedule.last
    }

    /// The writer.
    pub closed spec fn spec_writer(&self) -> W {
        self.writer
    }

    /// A line to `writer` after the initial population, then once a second.
    pub fn new(writer: W) -> (r: Self)
        ensures
            r.spec_every() == Every::Time(1_000_000_000),
            r.spec_last() is None,
            r.spec_writer() == writer,
    {
        Self::every(writer, 1_000_000_000)
    }

    /// A line to `writer` after the initial population, then after the first generation to end
    /// in each new interval of `interval` nanoseconds of the run (e.g. once past 1 s, 2 s, 3 s,
    /// ...), so the lines don't drift: after every generation with an interval of 0.
    pub fn every(writer: W, interval: u128) -> (r: Self)
        ensures
            r.spec_every() == Every::Time(interval),
            r.spec_last() is None,
            r.spec_writer() == writer,
    {
        Report { writer, schedule: Schedule { every: Every::Time(interval), last: None } }
    }

    /// A line to `writer` after the initial population and every `generations` generations
    /// (generation 0, `generations`, `2 * generations`, ...).
    ///
    /// # Errors
    ///
    /// [`Error::InvalidSetting`] if `generations` is 0.
    pub fn every_generations(writer: W, generations: u64) -> (r: Result<Self>)
        ensures
            r is Ok <==> generations >= 1,
            r matches Ok(report) ==> report.spec_every() == Every::Generations(generations)
                && report.spec_last() is None && report.spec_writer() == writer,
            r matches Err(e) ==> e.is_invalid_setting("every_generations"),
    {
        if generations == 0 {
            return Err(Error::InvalidSetting { setting: "every_generations", reason: reason("must be at least 1") });
        }
        Ok(Report { writer, schedule: Schedule { every: Every::Generations(generations), last: None } })
    }

    /// The same report to `writer` instead.
    pub fn to<V>(self, writer: V) -> (r: Report<V>)
        ensures
            r.spec_every() == self.spec_every(),
            r.spec_last() == self.spec_last(),
            r.spec_writer() == writer,
    {
        Report { writer, schedule: self.schedule }
    }

    /// The writer.
    pub fn writer(&self) -> (r: &W)
        ensures
            *r == self.spec_writer(),
    {
        &self.writer
    }

    /// The writer, to write a line to.
    pub fn writer_mut(&mut self) -> (r: &mut W)
        ensures
            *r == old(self).spec_writer(),
            final(self).spec_writer() == *final(r),
            final(self).spec_every() == old(self).spec_every(),
            final(self).spec_last() == old(self).spec_last(),
    {
        &mut self.writer
    }

    /// The writer, e.g. to read a `Vec<u8>` after the run.
    pub fn into_writer(self) -> (r: W)
        ensures
            r == self.spec_writer(),
    {
        self.writer
    }

    /// Whether a line is due after the generation of `progress`, and if so, records it as the
    /// last line: what an observer does after a generation, before it writes the line.
    pub fn update(&mut self, progress: &Progress) -> (due: bool)
        ensures
            due == line_due(old(self).spec_last(), old(self).spec_every(), progress.generation, progress.elapsed_nanos),
            final(self).spec_last() == (if due { Some((progress.generation, progress.elapsed_nanos)) } else { old(self).spec_last() }),
            final(self).spec_every() == old(self).spec_every(),
            final(self).spec_writer() == old(self).spec_writer(),
    {
        self.schedule.update(progress.generation(), progress.elapsed_nanos())
    }
}

/// Which lines a report with the last line `last` and the interval `every` writes for a run of
/// progresses (generation, elapsed nanoseconds), one after the other: [`Report::update`] in turn.
pub open spec fn lines_due(last: Option<(u64, u128)>, every: Every, progresses: Seq<(u64, u128)>) -> Seq<bool>
    decreases progresses.len(),
{
    if progresses.len() == 0 {
        Seq::empty()
    } else {
        let (generation, elapsed) = progresses[0];
        let due = line_due(last, every, generation, elapsed);
        seq![due] + lines_due(if due { Some((generation, elapsed)) } else { last }, every, progresses.drop_first())
    }
}

/// A report sent to another writer ([`Report::to`]) writes the same lines as the report it comes
/// from, for every run of progresses after it.
pub proof fn lemma_redirected_report_writes_alike<W, V>(report: Report<W>, writer: V, redirected: Report<V>, progresses: Seq<(u64, u128)>)
    requires
        redirected.spec_every() == report.spec_every(),
        redirected.spec_last() == report.spec_last(),
        redirected.spec_writer() == writer,
    ensures
        lines_due(redirected.spec_last(), redirected.spec_every(), progresses)
            == lines_due(report.spec_last(), report.spec_every(), progresses),
{
}

} // verus!
