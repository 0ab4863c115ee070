//! Bounded-concurrency batch conversion, as a state machine: the caller asks
//! what to do next, starts the file it is given, and reports each outcome.
use vstd::prelude::*;

verus! {

/// Smallest file size, in bytes, that is handed to the conversion tool.
pub const MIN_CONVERTIBLE_SIZE: u64 = 128;

/// Whether a file of `size` bytes is large enough to be converted; smaller
/// files are skipped without running the tool.
pub fn needs_conversion(size: u64) -> (r: bool)
    ensures
        r == (size >= MIN_CONVERTIBLE_SIZE),
{
    size >= MIN_CONVERTIBLE_SIZE
}

/// Whether the conversion tool answered a help request as a working tool does:
/// with exit code 0 or 1.
pub fn probe_succeeded(exit_code: Option<i32>) -> (r: bool)
    ensures
        r == (exit_code == Some(0i32) || exit_code == Some(1i32)),
{
    match exit_code {
        Some(c) => c == 0 || c == 1,
        None => false,
    }
}

/// The arguments that convert `input` to `format` into `output_dir`, through
/// 8-bit RGBA, overwriting what is there.
pub fn conversion_args(format: &str, output_dir: &str, input: &str) -> (r: Vec<String>)
    ensures
        r.deep_view() == seq![
            "-f"@,
            "R8G8B8A8_UNORM"@,
            "-ft"@,
            format@,
            "-y"@,
            "-o"@,
            output_dir@,
            input@,
        ],
{
    let r = vec![
        "-f".to_owned(),
        "R8G8B8A8_UNORM".to_owned(),
        "-ft".to_owned(),
        format.to_owned(),
        "-y".to_owned(),
        "-o".to_owned(),
        output_dir.to_owned(),
        input.to_owned(),
    ];
    assert(r.deep_view() =~= seq![
        "-f"@,
        "R8G8B8A8_UNORM"@,
        "-ft"@,
        format@,
        "-y"@,
        "-o"@,
        output_dir@,
        input@,
    ]);
    r
}

/// How the conversion of one file ended.
#[derive(Debug, Clone, Copy, PartialEq, Eq)]
pub enum FileOutcome {
    Skipped,
    Converted,
    Failed,
}

/// What the caller does next.
#[derive(Debug, Clone, Copy, PartialEq, Eq)]
pub enum BatchStep {
    /// Start converting the file at this index.
    Start(usize),
    /// Wait for a conversion in flight to end, and report it.
    Wait,
    /// The run is over.
    Finished,
}

/// The state of a batch run over `total` files, with at most `limit`
/// conversions in flight. Files are started in index order. After a failure,
/// unless `continue_on_error`, no further file is started; conversions already
/// in flight run to their end and are counted.
#[derive(Debug)]
pub struct BatchRun {
    pub total: usize,
    pub limit: usize,
    pub continue_on_error: bool,
    /// Files started so far; the next one to start has this index.
    pub started: usize,
    pub in_flight: usize,
    pub converted: usize,
    pub failed: usize,
    pub skipped: usize,
    /// The first file whose failure stopped the run.
    pub stopped_by: Option<usize>,
}

impl BatchRun {
    pub open spec fn wf(&self) -> bool {
        &&& self.limit >= 1
        &&& self.started <= self.total
        &&& self.in_flight <= self.limit
        &&& self.converted + self.failed + self.skipped + self.in_flight == self.started
        &&& (self.stopped_by is Some ==> !self.continue_on_error && self.failed >= 1)
    }

    /// Files that finished, whatever their outcome.
    pub open spec fn finished(&self) -> nat {
        (self.converted + self.failed + self.skipped) as nat
    }

    /// A run with nothing started yet.
    pub fn new(total: usize, limit: usize, continue_on_error: bool) -> (r: BatchRun)
        requires
            limit >= 1,
        ensures
            r.wf(),
            r.total == total && r.limit == limit && r.continue_on_error == continue_on_error,
            r.started == 0 && r.in_flight == 0,
            r.converted == 0 && r.failed == 0 && r.skipped == 0,
            r.stopped_by is None,
    {
        BatchRun {
            total,
            limit,
            continue_on_error,
            started: 0,
            in_flight: 0,
            converted: 0,
            failed: 0,
            skipped: 0,
            stopped_by: None,
        }
    }

    /// Decides the next step: start the next file while a slot is free and the
    /// run goes on; else wait while conversions are in flight; else finish.
    pub fn next_step(&mut self) -> (r: BatchStep)
        requires
            old(self).wf(),
        ensures
            final(self).wf(),
            final(self).total == old(self).total && final(self).limit == old(self).limit,
            final(self).continue_on_error == old(self).continue_on_error,
            final(self).converted == old(self).converted,
            final(self).failed == old(self).failed,
            final(self).skipped == old(self).skipped,
            final(self).stopped_by == old(self).stopped_by,
            if old(self).stopped_by is None && old(self).started < old(self).total
                && old(self).in_flight < old(self).limit {
                &&& r == BatchStep::Start(old(self).started)
                &&& final(self).started == old(self).started + 1
                &&& final(self).in_flight == old(self).in_flight + 1
            } else {
                &&& final(self).started == old(self).started
                &&& final(self).in_flight == old(self).in_flight
                &&& r == (if old(self).in_flight > 0 {
                    BatchStep::Wait
                } else {
                    BatchStep::Finished
                })
            },
    {
        if self.stopped_by.is_none() && self.started < self.total && self.in_flight < self.limit {
            let index = self.started;
            self.started = self.started + 1;
            self.in_flight = self.in_flight + 1;
            BatchStep::Start(index)
        } else if self.in_flight > 0 {
            BatchStep::Wait
        } else {
            BatchStep::Finished
        }
    }

    /// Records how the conversion of file `index`, one in flight, ended.
    pub fn complete(&mut self, index: usize, outcome: FileOutcome)
        requires
            old(self).wf(),
            old(self).in_flight > 0,
            index < old(self).started,
        ensures
            final(self).wf(),
            final(self).total == old(self).total && final(self).limit == old(self).limit,
            final(self).continue_on_error == old(self).continue_on_error,
            final(self).started == old(self).started,
            final(self).in_flight == old(self).in_flight - 1,
            final(self).converted == old(self).converted + if outcome == FileOutcome::Converted {
                1int
            } else {
                0int
            },
            final(self).failed == old(self).failed + if outcome == FileOutcome::Failed {
                1int
            } else {
                0int
            },
            final(self).skipped == old(self).skipped + if outcome == FileOutcome::Skipped {
                1int
            } else {
                0int
            },
            final(self).stopped_by == if old(self).stopped_by is None && outcome
                == FileOutcome::Failed && !old(self).continue_on_error {
                Some(index)
            } else {
                old(self).stopped_by
            },
    {
        self.in_flight = self.in_flight - 1;
        match outcome {
            FileOutcome::Skipped => {
                self.skipped = self.skipped + 1;
            },
            FileOutcome::Converted => {
                self.converted = self.converted + 1;
            },
            FileOutcome::Failed => {
                self.failed = self.failed + 1;
                if self.stopped_by.is_none() && !self.continue_on_error {
                    self.stopped_by = Some(index);
                }
            },
        }
    }

    /// Files that were never started because the run stopped.
    pub fn not_started(&self) -> (r: usize)
        requires
            self.wf(),
        ensures
            r == self.total - self.started,
    {
        self.total - self.started
    }
}

/// When a run has finished, whatever the order in which conversions ended,
/// every file is either tallied once or was never started, and a stopped run
/// holds the failure that stopped it.
pub proof fn lemma_finished_run_accounts_for_all(run: BatchRun)
    requires
        run.wf(),
        run.in_flight == 0,
    ensures
        run.finished() + (run.total - run.started) == run.total,
        run.stopped_by is Some ==> run.failed >= 1 && !run.continue_on_error,
{
}

/// A run that goes on after failures finishes only once every file has
/// finished, so its tally covers all of them.
pub proof fn lemma_finished_run_covers_all(run: BatchRun)
    requires
        run.wf(),
        run.continue_on_error,
        !(run.stopped_by is None && run.started < run.total && run.in_flight < run.limit),
        run.in_flight == 0,
    ensures
        run.finished() == run.total,
{
}

} // verus!
