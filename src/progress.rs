//! Aggregate progress of a run of downloads, and the decisions taken as each
//! transfer reports back.
use crate::clean::ArtifactRequest;
use vstd::prelude::*;
use vstd::string::StringExecFns;
use vstd::string::StrSliceExecFns;

verus! {

/// The text that `size` gives for a byte count in base-10 units ("1.02 KB").
pub uninterp spec fn size_text(bytes: u64) -> Seq<char>;

/// Relies on `size::Size::format` with `size::Base::Base10`: a human-readable
/// size that depends on the byte count alone.
#[verifier::external_body]
fn format_size(bytes: u64) -> (r: String)
    ensures
        r@ == size_text(bytes),
{
    size::Size::from_bytes(bytes).format().with_base(size::Base::Base10).to_string()
}

/// `a + b`, held at `u64::MAX`.
pub open spec fn sat_add(a: u64, b: u64) -> u64 {
    if a + b > u64::MAX {
        u64::MAX
    } else {
        (a + b) as u64
    }
}

/// The sum of the expected lengths of `s`.
pub open spec fn total_of<F>(s: Seq<ArtifactRequest<F>>) -> int
    decreases s.len(),
{
    if s.len() == 0 {
        0
    } else {
        total_of(s.drop_last()) + s.last().length
    }
}

/// The counter after adding each of `incs` in turn to `start`.
pub open spec fn after_increments(start: u64, incs: Seq<u64>) -> u64
    decreases incs.len(),
{
    if incs.len() == 0 {
        start
    } else {
        sat_add(after_increments(start, incs.drop_last()), incs.last())
    }
}

/// `n` spaces.
pub open spec fn spaces(n: nat) -> Seq<char>
    decreases n,
{
    if n == 0 {
        Seq::empty()
    } else {
        spaces((n - 1) as nat) + " "@
    }
}

/// `s` right-aligned in a field of `width` characters.
pub open spec fn pad_left(s: Seq<char>, width: nat) -> Seq<char> {
    if s.len() >= width {
        s
    } else {
        spaces((width - s.len()) as nat) + s
    }
}

/// The log line for a finished transfer.
pub open spec fn completion_text(size: Seq<char>, filename: Seq<char>) -> Seq<char> {
    "✓ Downloaded  "@ + pad_left(size, 7) + "  "@ + filename
}

/// The log line for an installed override.
pub open spec fn installed_text(name: Seq<char>) -> Seq<char> {
    "✓ Installed          "@ + name
}

/// The sum of the expected lengths of `requests`, held at `u64::MAX`.
pub fn total_expected<F>(requests: &Vec<ArtifactRequest<F>>) -> (r: u64)
    ensures
        r == if total_of(requests@) > u64::MAX {
            u64::MAX as int
        } else {
            total_of(requests@)
        },
{
    let mut sum: u64 = 0;
    let mut i: usize = 0;
    while i < requests.len()
        invariant
            i <= requests@.len(),
            sum == if total_of(requests@.subrange(0, i as int)) > u64::MAX {
                u64::MAX as int
            } else {
                total_of(requests@.subrange(0, i as int))
            },
        decreases requests@.len() - i,
    {
        proof {
            let sub = requests@.subrange(0, i + 1);
            assert(sub.drop_last() =~= requests@.subrange(0, i as int));
            assert(sub.last() == requests@[i as int]);
            lemma_total_nonneg(requests@.subrange(0, i as int));
        }
        sum = sum.saturating_add(requests[i].length);
        i = i + 1;
    }
    proof {
        assert(requests@.subrange(0, i as int) =~= requests@);
    }
    sum
}

proof fn lemma_total_nonneg<F>(s: Seq<ArtifactRequest<F>>)
    ensures
        total_of(s) >= 0,
    decreases s.len(),
{
    if s.len() > 0 {
        lemma_total_nonneg(s.drop_last());
    }
}

/// `size` right-aligned in seven columns, as the completion line shows it.
fn padded(size: &str) -> (r: String)
    ensures
        r@ == pad_left(size@, 7),
{
    let n = size.unicode_len();
    let mut r = String::new();
    if n < 7 {
        let mut k: usize = 0;
        while k < 7 - n
            invariant
                n == size@.len(),
                n < 7,
                k <= 7 - n,
                r@ == spaces(k as nat),
            decreases 7 - n - k,
        {
            r.append(" ");
            k = k + 1;
        }
    }
    r.append(size);
    r
}

/// The line logged when a transfer finishes: a check mark, the word
/// "Downloaded", the size right-aligned in seven columns, and the filename.
pub fn completion_line(size: &str, filename: &str) -> (r: String)
    ensures
        r@ == completion_text(size@, filename@),
{
    let mut r = String::from_str("✓ Downloaded  ");
    let p = padded(size);
    r.append(p.as_str());
    r.append("  ");
    r.append(filename);
    r
}

/// The line logged when an override has been installed.
pub fn installed_line(name: &str) -> (r: String)
    ensures
        r@ == installed_text(name@),
{
    let mut r = String::from_str("✓ Installed          ");
    r.append(name);
    r
}

/// What a transfer of the run reports back.
pub enum TransferEvent {
    /// `bytes` more have been written by some transfer.
    Progress(u64),
    /// A transfer has completed, having written `bytes` to `filename`.
    Finished { filename: String, bytes: u64 },
    /// A transfer has failed.
    Failed,
}

/// What the coordinator does next.
#[derive(Clone, Copy, Debug, PartialEq, Eq, Structural)]
pub enum RunStep {
    /// Keep waiting for the transfers still in flight.
    Continue,
    /// Every transfer has completed: finish the progress display.
    Done,
    /// A transfer has failed: stop waiting and report the failure.
    Abort,
}

/// The shared aggregate of one run of downloads.
pub struct ProgressState {
    /// Sum of the expected lengths of the run's requests.
    pub total: u64,
    /// Bytes written so far, over all transfers.
    pub completed: u64,
    /// One line per finished transfer, in order of completion.
    pub log: Vec<String>,
    /// Transfers that have not finished yet.
    pub pending: usize,
    /// Whether a transfer has failed.
    pub failed: bool,
}

impl ProgressState {
    /// The state at the start of a run over `requests`.
    pub fn new<F>(requests: &Vec<ArtifactRequest<F>>) -> (s: Self)
        ensures
            s.total == if total_of(requests@) > u64::MAX {
                u64::MAX as int
            } else {
                total_of(requests@)
            },
            s.completed == 0,
            s.log@.len() == 0,
            s.pending == requests@.len(),
            !s.failed,
    {
        ProgressState {
            total: total_expected(requests),
            completed: 0,
            log: Vec::new(),
            pending: requests.len(),
            failed: false,
        }
    }

    /// Adds `bytes` to the completed count (held at `u64::MAX`).
    pub fn inc(&mut self, bytes: u64)
        ensures
            final(self).completed == sat_add(old(self).completed, bytes),
            final(self).completed >= old(self).completed,
            final(self).total == old(self).total,
            final(self).log@ == old(self).log@,
            final(self).pending == old(self).pending,
            final(self).failed == old(self).failed,
    {
        self.completed = self.completed.saturating_add(bytes);
    }

    /// Whether the completed count has reached the expected total.
    pub fn is_complete(&self) -> (r: bool)
        ensures
            r == (self.completed >= self.total),
    {
        self.completed >= self.total
    }

    /// Takes in one report of a transfer and says what to do next.
    ///
    /// Once a transfer has failed, the run is over: every later report is
    /// ignored and answered with `Abort`.
    pub fn handle(&mut self, event: TransferEvent) -> (step: RunStep)
        ensures
            final(self).total == old(self).total,
            final(self).completed >= old(self).completed,
            old(self).failed ==> step == RunStep::Abort && final(self).completed == old(
                self,
            ).completed && final(self).log@ == old(self).log@ && final(self).pending == old(
                self,
            ).pending && final(self).failed,
            !old(self).failed ==> match event {
                TransferEvent::Progress(n) => {
                    &&& step == RunStep::Continue
                    &&& final(self).completed == sat_add(old(self).completed, n)
                    &&& final(self).log@ == old(self).log@
                    &&& final(self).pending == old(self).pending
                    &&& !final(self).failed
                },
                TransferEvent::Finished { filename, bytes } => {
                    &&& final(self).completed == old(self).completed
                    &&& final(self).log@.len() == old(self).log@.len() + 1
                    &&& final(self).log@.drop_last() == old(self).log@
                    &&& final(self).log@.last()@ == completion_text(size_text(bytes), filename@)
                    &&& final(self).pending == if old(self).pending == 0 {
                        0
                    } else {
                        old(self).pending - 1
                    }
                    &&& step == if final(self).pending == 0 {
                        RunStep::Done
                    } else {
                        RunStep::Continue
                    }
                    &&& !final(self).failed
                },
                TransferEvent::Failed => {
                    &&& step == RunStep::Abort
                    &&& final(self).completed == old(self).completed
                    &&& final(self).log@ == old(self).log@
                    &&& final(self).pending == old(self).pending
                    &&& final(self).failed
                },
            },
    {
        if self.failed {
            return RunStep::Abort;
        }
        match event {
            TransferEvent::Progress(n) => {
                self.inc(n);
                RunStep::Continue
            },
            TransferEvent::Finished { filename, bytes } => {
                let size = format_size(bytes);
                let line = completion_line(size.as_str(), filename.as_str());
                self.log.push(line);
                if self.pending > 0 {
                    self.pending = self.pending - 1;
                }
                proof {
                    assert(self.log@.drop_last() =~= old(self).log@);
                }
                if self.pending == 0 {
                    RunStep::Done
                } else {
                    RunStep::Continue
                }
            },
            TransferEvent::Failed => {
                self.failed = true;
                RunStep::Abort
            },
        }
    }
}

/// The completed count never decreases over a run: after any prefix of a
/// sequence of increments it is at most what it is after a longer prefix.
pub proof fn lemma_progress_monotone(start: u64, incs: Seq<u64>, i: int, j: int)
    requires
        0 <= i <= j <= incs.len(),
    ensures
        after_increments(start, incs.take(i)) <= after_increments(start, incs.take(j)),
    decreases j - i,
{
    if i < j {
        lemma_progress_monotone(start, incs, i, j - 1);
        assert(incs.take(j).drop_last() =~= incs.take(j - 1));
    }
}

/// The sum of `incs`.
pub open spec fn sum_of(incs: Seq<u64>) -> int
    decreases incs.len(),
{
    if incs.len() == 0 {
        0
    } else {
        sum_of(incs.drop_last()) + incs.last()
    }
}

/// However the transfers split their bytes into increments, and in whatever
/// order the increments arrive, a run whose increments add up to the expected
/// total (and fit in a `u64`) ends with the completed count at that total.
pub proof fn lemma_progress_reaches_total<F>(requests: Seq<ArtifactRequest<F>>, incs: Seq<u64>)
    requires
        sum_of(incs) == total_of(requests),
        total_of(requests) <= u64::MAX,
    ensures
        after_increments(0, incs) == total_of(requests),
{
    lemma_increments_sum(incs);
}

proof fn lemma_increments_sum(incs: Seq<u64>)
    requires
        sum_of(incs) <= u64::MAX,
    ensures
        after_increments(0, incs) == sum_of(incs),
    decreases incs.len(),
{
    if incs.len() > 0 {
        lemma_sum_nonneg(incs.drop_last());
        lemma_increments_sum(incs.drop_last());
    }
}

proof fn lemma_sum_nonneg(incs: Seq<u64>)
    ensures
        sum_of(incs) >= 0,
    decreases incs.len(),
{
    if incs.len() > 0 {
        lemma_sum_nonneg(incs.drop_last());
    }
}

} // verus!
