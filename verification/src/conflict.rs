//! Probing pairs of branches for conflicts: which pairs to probe, which
//! commands a probe runs, and what its outcome is.
use vstd::prelude::*;
use vstd::string::StringExecFns;
use crate::error::{GitError, GitInterfaceError};
use crate::qualified_path::{encode, path_views, QualifiedPath};
use crate::text::{join, views};

verus! {

/// How the merge of a pair of branches went.
pub enum Verdict {
    /// The branches merged.
    Merged,
    /// The merge ran into a conflict.
    Conflict,
    /// The tool failed; the text says how.
    Failed(Seq<char>),
}

/// What a statistic says: the pair of paths, and how their merge went.
pub struct StatisticView {
    pub left: Seq<Seq<char>>,
    pub right: Seq<Seq<char>>,
    pub verdict: Verdict,
}

/// The outcome of the probe of one pair of branches.
#[allow(non_camel_case_types)]
#[derive(Debug)]
pub enum ConflictStatistic {
    OK((QualifiedPath, QualifiedPath)),
    CONFLICT((QualifiedPath, QualifiedPath)),
    ERROR((QualifiedPath, QualifiedPath), GitError),
}

impl View for ConflictStatistic {
    type V = StatisticView;

    open spec fn view(&self) -> StatisticView {
        match self {
            ConflictStatistic::OK((l, r)) => StatisticView {
                left: l@,
                right: r@,
                verdict: Verdict::Merged,
            },
            ConflictStatistic::CONFLICT((l, r)) => StatisticView {
                left: l@,
                right: r@,
                verdict: Verdict::Conflict,
            },
            ConflictStatistic::ERROR((l, r), e) => StatisticView {
                left: l@,
                right: r@,
                verdict: Verdict::Failed(e.message()),
            },
        }
    }
}

/// The text that reports a statistic.
pub open spec fn report(statistic: StatisticView) -> Seq<char> {
    "Merge "@ + join(statistic.left, '/') + " and "@ + join(statistic.right, '/') + " "@
        + match statistic.verdict {
        Verdict::Merged => "OK"@,
        Verdict::Conflict => "CONFLICT"@,
        Verdict::Failed(_) => "ERROR"@,
    }
}

impl ConflictStatistic {
    /// The pair of paths that was probed.
    pub fn branches(&self) -> (r: (&QualifiedPath, &QualifiedPath))
        ensures
            r.0@ == self@.left,
            r.1@ == self@.right,
    {
        match self {
            ConflictStatistic::OK((l, r)) => (l, r),
            ConflictStatistic::CONFLICT((l, r)) => (l, r),
            ConflictStatistic::ERROR((l, r), _) => (l, r),
        }
    }

    /// Whether the branches did not merge: a conflict, or a failure of the
    /// tool.
    pub fn has_conflict(&self) -> (r: bool)
        ensures
            r == !(self@.verdict is Merged),
    {
        match self {
            ConflictStatistic::OK(_) => false,
            _ => true,
        }
    }

    /// The text that reports the statistic.
    pub fn to_string(&self) -> (r: String)
        ensures
            r@ == report(self@),
    {
        let (l, r) = self.branches();
        let mut text = String::from_str("Merge ");
        text.append(l.to_string().as_str());
        text.append(" and ");
        text.append(r.to_string().as_str());
        text.append(" ");
        match self {
            ConflictStatistic::OK(_) => text.append("OK"),
            ConflictStatistic::CONFLICT(_) => text.append("CONFLICT"),
            ConflictStatistic::ERROR(_, _) => text.append("ERROR"),
        }
        text
    }
}

/// The views of a sequence of statistics, element by element.
pub open spec fn statistic_views(statistics: Seq<ConflictStatistic>) -> Seq<StatisticView> {
    Seq::new(statistics.len(), |i: int| statistics[i]@)
}

/// The statistics whose merge went as `outcome` says, in order.
pub open spec fn with_outcome(statistics: Seq<StatisticView>, outcome: Outcome) -> Seq<StatisticView>
    decreases statistics.len(),
{
    if statistics.len() == 0 {
        Seq::empty()
    } else if outcome_of(statistics.last()) == outcome {
        with_outcome(statistics.drop_last(), outcome).push(statistics.last())
    } else {
        with_outcome(statistics.drop_last(), outcome)
    }
}

/// How a merge went, whatever the text of a failure.
pub enum Outcome {
    Merged,
    Conflict,
    Failed,
}

/// How the merge of a statistic went.
pub open spec fn outcome_of(statistic: StatisticView) -> Outcome {
    match statistic.verdict {
        Verdict::Merged => Outcome::Merged,
        Verdict::Conflict => Outcome::Conflict,
        Verdict::Failed(_) => Outcome::Failed,
    }
}

/// What the collected statistics hold: those of each outcome, in the order in
/// which they came.
pub struct StatisticsView {
    pub ok: Seq<StatisticView>,
    pub conflict: Seq<StatisticView>,
    pub error: Seq<StatisticView>,
}

/// The statistics of many probes, sorted by how the merge went.
#[derive(Debug)]
pub struct ConflictStatistics {
    ok: Vec<ConflictStatistic>,
    conflict: Vec<ConflictStatistic>,
    error: Vec<ConflictStatistic>,
}

impl View for ConflictStatistics {
    type V = StatisticsView;

    closed spec fn view(&self) -> StatisticsView {
        StatisticsView {
            ok: statistic_views(self.ok@),
            conflict: statistic_views(self.conflict@),
            error: statistic_views(self.error@),
        }
    }
}

impl ConflictStatistics {
    /// No statistics.
    pub fn new() -> (r: Self)
        ensures
            r@ == (StatisticsView { ok: Seq::empty(), conflict: Seq::empty(), error: Seq::empty() }),
    {
        let r = Self { ok: Vec::new(), conflict: Vec::new(), error: Vec::new() };
        assert(r@.ok =~= Seq::empty());
        assert(r@.conflict =~= Seq::empty());
        assert(r@.error =~= Seq::empty());
        r
    }

    /// The given statistics, sorted by how the merge went.
    pub fn from(statistics: Vec<ConflictStatistic>) -> (r: Self)
        ensures
            r@ == (StatisticsView {
                ok: with_outcome(statistic_views(statistics@), Outcome::Merged),
                conflict: with_outcome(statistic_views(statistics@), Outcome::Conflict),
                error: with_outcome(statistic_views(statistics@), Outcome::Failed),
            }),
    {
        let mut new = Self::new();
        let mut rest = statistics;
        let ghost all = statistic_views(statistics@);
        let ghost total = all.len();
        proof {
            assert(all.subrange(total as int, total as int) =~= Seq::empty());
        }
        // The statistics are moved out from the end, so those of each outcome
        // are collected in reverse and turned round at the end.
        let mut ok: Vec<ConflictStatistic> = Vec::new();
        let mut conflict: Vec<ConflictStatistic> = Vec::new();
        let mut error: Vec<ConflictStatistic> = Vec::new();
        while rest.len() > 0
            invariant
                rest@.len() <= total,
                total == all.len(),
                statistic_views(rest@) == all.take(rest@.len() as int),
                statistic_views(ok@).reverse() == with_outcome_from(
                    all,
                    rest@.len() as int,
                    Outcome::Merged,
                ),
                statistic_views(conflict@).reverse() == with_outcome_from(
                    all,
                    rest@.len() as int,
                    Outcome::Conflict,
                ),
                statistic_views(error@).reverse() == with_outcome_from(
                    all,
                    rest@.len() as int,
                    Outcome::Failed,
                ),
            decreases rest.len(),
        {
            let ghost n = rest@.len() as int;
            let ghost before = statistic_views(rest@);
            let statistic = rest.pop().unwrap();
            proof {
                assert(statistic@ == before[n - 1]);
                assert(statistic@ == all[n - 1]);
                assert(statistic_views(rest@) =~= all.take(n - 1));
            }
            let ghost ok_before = statistic_views(ok@);
            let ghost conflict_before = statistic_views(conflict@);
            let ghost error_before = statistic_views(error@);
            match statistic {
                ConflictStatistic::OK(_) => {
                    ok.push(statistic);
                    assert(statistic_views(ok@) =~= ok_before.push(statistic@));
                    assert(statistic_views(ok@).reverse() =~= seq![statistic@]
                        + ok_before.reverse());
                },
                ConflictStatistic::CONFLICT(_) => {
                    conflict.push(statistic);
                    assert(statistic_views(conflict@) =~= conflict_before.push(statistic@));
                    assert(statistic_views(conflict@).reverse() =~= seq![statistic@]
                        + conflict_before.reverse());
                },
                ConflictStatistic::ERROR(_, _) => {
                    error.push(statistic);
                    assert(statistic_views(error@) =~= error_before.push(statistic@));
                    assert(statistic_views(error@).reverse() =~= seq![statistic@]
                        + error_before.reverse());
                },
            }
        }
        proof {
            lemma_outcome_from_start(all, Outcome::Merged);
            lemma_outcome_from_start(all, Outcome::Conflict);
            lemma_outcome_from_start(all, Outcome::Failed);
        }
        let ok = reversed(ok);
        let conflict = reversed(conflict);
        let error = reversed(error);
        let r = Self { ok, conflict, error };
        r
    }

    /// Adds a statistic to those of its outcome.
    pub fn push(&mut self, statistic: ConflictStatistic)
        ensures
            final(self)@ == match statistic@.verdict {
                Verdict::Merged => StatisticsView { ok: old(self)@.ok.push(statistic@), ..old(self)@ },
                Verdict::Conflict => StatisticsView {
                    conflict: old(self)@.conflict.push(statistic@),
                    ..old(self)@
                },
                Verdict::Failed(_) => StatisticsView {
                    error: old(self)@.error.push(statistic@),
                    ..old(self)@
                },
            },
    {
        match statistic {
            ConflictStatistic::OK(_) => {
                self.ok.push(statistic);
                assert(self@.ok =~= old(self)@.ok.push(statistic@));
            },
            ConflictStatistic::CONFLICT(_) => {
                self.conflict.push(statistic);
                assert(self@.conflict =~= old(self)@.conflict.push(statistic@));
            },
            ConflictStatistic::ERROR(_, _) => {
                self.error.push(statistic);
                assert(self@.error =~= old(self)@.error.push(statistic@));
            },
        }
    }

    /// The statistics of the pairs that merged.
    pub fn iter_ok(&self) -> (r: &Vec<ConflictStatistic>)
        ensures
            statistic_views(r@) == self@.ok,
    {
        &self.ok
    }

    /// The number of pairs that merged.
    pub fn n_ok(&self) -> (r: usize)
        ensures
            r == self@.ok.len(),
    {
        self.ok.len()
    }

    /// The number of pairs that ran into a conflict.
    pub fn n_conflict(&self) -> (r: usize)
        ensures
            r == self@.conflict.len(),
    {
        self.conflict.len()
    }

    /// The number of pairs for which the tool failed.
    pub fn n_errors(&self) -> (r: usize)
        ensures
            r == self@.error.len(),
    {
        self.error.len()
    }
}

/// The statistics whose merge went as `outcome` says, among those from
/// index `from` on.
pub open spec fn with_outcome_from(statistics: Seq<StatisticView>, from: int, outcome: Outcome) -> Seq<
    StatisticView,
>
    decreases statistics.len() - from,
{
    if from >= statistics.len() || from < 0 {
        Seq::empty()
    } else if outcome_of(statistics[from]) == outcome {
        seq![statistics[from]] + with_outcome_from(statistics, from + 1, outcome)
    } else {
        with_outcome_from(statistics, from + 1, outcome)
    }
}

proof fn lemma_outcome_split(statistics: Seq<StatisticView>, from: int, outcome: Outcome)
    requires
        0 <= from <= statistics.len(),
    ensures
        with_outcome(statistics, outcome) == with_outcome(statistics.take(from), outcome) + with_outcome_from(
            statistics,
            from,
            outcome,
        ),
    decreases statistics.len() - from,
{
    if from == statistics.len() {
        assert(statistics.take(from) =~= statistics);
        assert(with_outcome(statistics, outcome) + Seq::empty() =~= with_outcome(statistics, outcome));
    } else {
        lemma_outcome_split(statistics, from + 1, outcome);
        let longer = statistics.take(from + 1);
        assert(longer.drop_last() =~= statistics.take(from));
        assert(longer.last() == statistics[from]);
        let head = with_outcome(statistics.take(from), outcome);
        let tail = with_outcome_from(statistics, from + 1, outcome);
        if outcome_of(statistics[from]) == outcome {
            assert(head.push(statistics[from]) + tail =~= head + (seq![statistics[from]] + tail));
        }
    }
}

proof fn lemma_outcome_from_start(statistics: Seq<StatisticView>, outcome: Outcome)
    ensures
        with_outcome_from(statistics, 0, outcome) == with_outcome(statistics, outcome),
{
    lemma_outcome_split(statistics, 0, outcome);
    assert(statistics.take(0) =~= Seq::empty());
    assert(Seq::empty() + with_outcome_from(statistics, 0, outcome) =~= with_outcome_from(statistics, 0, outcome));
}

/// The statistics in reverse order.
fn reversed(statistics: Vec<ConflictStatistic>) -> (r: Vec<ConflictStatistic>)
    ensures
        statistic_views(r@) == statistic_views(statistics@).reverse(),
{
    let mut rest = statistics;
    let mut out: Vec<ConflictStatistic> = Vec::new();
    let ghost all = statistic_views(statistics@);
    while rest.len() > 0
        invariant
            rest@.len() <= all.len(),
            statistic_views(rest@) == all.take(rest@.len() as int),
            statistic_views(out@).len() == all.len() - rest@.len(),
            forall|j: int|
                0 <= j < out@.len() ==> (#[trigger] statistic_views(out@)[j]) == all[all.len() - 1
                    - j],
        decreases rest.len(),
    {
        let ghost n = rest@.len() as int;
        let ghost before = statistic_views(rest@);
        let ghost out_before = statistic_views(out@);
        let statistic = rest.pop().unwrap();
        proof {
            assert(statistic@ == before[n - 1]);
            assert(statistic_views(rest@) =~= all.take(n - 1));
        }
        out.push(statistic);
        proof {
            assert(statistic_views(out@) =~= out_before.push(statistic@));
        }
    }
    assert(statistic_views(out@) =~= all.reverse());
    out
}

/// How a command given to the tool ended.
#[derive(Debug)]
pub enum ToolOutcome {
    /// The tool ran and reported success.
    Success,
    /// The tool ran and reported failure; the text is what it wrote about it.
    Failure(String),
    /// The tool could not be run; the text says why.
    Unavailable(String),
}

/// The steps of a probe, in the order in which they are taken.
#[derive(Clone, Copy, Debug, PartialEq, Eq, Structural)]
pub enum ProbePhase {
    CreateScratch,
    CheckoutScratch,
    Merge,
    AbortMerge,
    ReturnToArea,
    DeleteScratch,
    Finished,
}

/// The error that an outcome other than success stands for.
pub open spec fn outcome_error(outcome: ToolOutcome) -> Option<Seq<char>> {
    match outcome {
        ToolOutcome::Success => None,
        ToolOutcome::Failure(text) => Some(text@),
        ToolOutcome::Unavailable(text) => Some(text@),
    }
}

/// What a probe is: the pair probed, the area to return to, the step to take
/// next, whether the merge succeeded once it was tried, and the first error
/// met.
pub struct ProbeView {
    pub left: Seq<Seq<char>>,
    pub right: Seq<Seq<char>>,
    pub area: Seq<Seq<char>>,
    pub phase: ProbePhase,
    pub merged: Option<bool>,
    pub error: Option<Seq<char>>,
}

/// The name of the scratch branch of a probe.
pub open spec fn scratch_name() -> Seq<char> {
    "tmp"@
}

impl ProbeView {
    /// The arguments of the command of the step to take next.
    pub open spec fn command(self) -> Option<Seq<Seq<char>>> {
        match self.phase {
            ProbePhase::CreateScratch => Some(seq!["branch"@, scratch_name()]),
            ProbePhase::CheckoutScratch => Some(seq!["checkout"@, scratch_name()]),
            ProbePhase::Merge => Some(seq!["merge"@, encode(self.left), encode(self.right)]),
            ProbePhase::AbortMerge => Some(seq!["merge"@, "--abort"@]),
            ProbePhase::ReturnToArea => Some(seq!["checkout"@, encode(self.area)]),
            ProbePhase::DeleteScratch => Some(seq!["branch"@, "-D"@, scratch_name()]),
            ProbePhase::Finished => None,
        }
    }

    /// The step that follows, given how the command of this step ended. A
    /// scratch branch that could not be created leaves nothing to clean up;
    /// one that could not be checked out is deleted; after the merge was
    /// tried, a merge that did not succeed is given up, the area is checked
    /// out again and the scratch branch is deleted, however these steps end.
    pub open spec fn next_phase(self, outcome: ToolOutcome) -> ProbePhase {
        match self.phase {
            ProbePhase::CreateScratch => if outcome is Success {
                ProbePhase::CheckoutScratch
            } else {
                ProbePhase::Finished
            },
            ProbePhase::CheckoutScratch => if outcome is Success {
                ProbePhase::Merge
            } else {
                ProbePhase::DeleteScratch
            },
            ProbePhase::Merge => if outcome is Success {
                ProbePhase::ReturnToArea
            } else {
                ProbePhase::AbortMerge
            },
            ProbePhase::AbortMerge => ProbePhase::ReturnToArea,
            ProbePhase::ReturnToArea => ProbePhase::DeleteScratch,
            ProbePhase::DeleteScratch => ProbePhase::Finished,
            ProbePhase::Finished => ProbePhase::Finished,
        }
    }

    /// The probe after the command of its step ended with `outcome`. The
    /// merge step records whether the branches merged; a failure that the
    /// tool reports there is a conflict and no error. Any other outcome but
    /// success is an error, of which the first is kept.
    pub open spec fn after(self, outcome: ToolOutcome) -> ProbeView {
        if self.phase == ProbePhase::Finished {
            self
        } else {
            let conflict = self.phase == ProbePhase::Merge && outcome is Failure;
            ProbeView {
                phase: self.next_phase(outcome),
                merged: if self.phase == ProbePhase::Merge && !(outcome is Unavailable) {
                    Some(outcome is Success)
                } else {
                    self.merged
                },
                error: if self.error is None && !conflict {
                    outcome_error(outcome)
                } else {
                    self.error
                },
                ..self
            }
        }
    }

    /// How the merge went, once the probe is finished: an error if one was
    /// met or the merge was never tried, else whether the branches merged.
    pub open spec fn verdict(self) -> Verdict {
        match self.error {
            Some(text) => Verdict::Failed(text),
            None => match self.merged {
                Some(true) => Verdict::Merged,
                Some(false) => Verdict::Conflict,
                None => Verdict::Failed(Seq::empty()),
            },
        }
    }
}

/// The probe of one pair of branches: a scratch branch is created from the
/// area and checked out, the pair is merged into it, and the scratch branch
/// is left and deleted again.
#[derive(Debug)]
pub struct Probe {
    left: QualifiedPath,
    right: QualifiedPath,
    area: QualifiedPath,
    phase: ProbePhase,
    merged: Option<bool>,
    error: Option<GitError>,
}

impl View for Probe {
    type V = ProbeView;

    closed spec fn view(&self) -> ProbeView {
        ProbeView {
            left: self.left@,
            right: self.right@,
            area: self.area@,
            phase: self.phase,
            merged: self.merged,
            error: match self.error {
                Some(e) => Some(e.message()),
                None => None,
            },
        }
    }
}

impl Probe {
    /// The probe of `left` and `right`, to start from and return to `area`.
    pub fn new(area: QualifiedPath, left: QualifiedPath, right: QualifiedPath) -> (r: Self)
        ensures
            r@ == (ProbeView {
                left: left@,
                right: right@,
                area: area@,
                phase: ProbePhase::CreateScratch,
                merged: None,
                error: None,
            }),
    {
        Self { left, right, area, phase: ProbePhase::CreateScratch, merged: None, error: None }
    }

    /// Whether no step is left to take.
    pub fn is_finished(&self) -> (r: bool)
        ensures
            r == (self@.phase == ProbePhase::Finished),
    {
        self.phase == ProbePhase::Finished
    }

    /// The arguments of the command of the step to take next, if one is left.
    pub fn next_command(&self) -> (r: Option<Vec<String>>)
        ensures
            match r {
                Some(args) => self@.command() == Some(views(args@)),
                None => self@.command() is None,
            },
    {
        let mut args: Vec<String> = Vec::new();
        match self.phase {
            ProbePhase::CreateScratch => {
                args.push(String::from_str("branch"));
                args.push(String::from_str("tmp"));
                assert(views(args@) =~= seq!["branch"@, scratch_name()]);
            },
            ProbePhase::CheckoutScratch => {
                args.push(String::from_str("checkout"));
                args.push(String::from_str("tmp"));
                assert(views(args@) =~= seq!["checkout"@, scratch_name()]);
            },
            ProbePhase::Merge => {
                args.push(String::from_str("merge"));
                args.push(self.left.to_git_branch());
                args.push(self.right.to_git_branch());
                assert(views(args@) =~= seq!["merge"@, encode(self.left@), encode(self.right@)]);
            },
            ProbePhase::AbortMerge => {
                args.push(String::from_str("merge"));
                args.push(String::from_str("--abort"));
                assert(views(args@) =~= seq!["merge"@, "--abort"@]);
            },
            ProbePhase::ReturnToArea => {
                args.push(String::from_str("checkout"));
                args.push(self.area.to_git_branch());
                assert(views(args@) =~= seq!["checkout"@, encode(self.area@)]);
            },
            ProbePhase::DeleteScratch => {
                args.push(String::from_str("branch"));
                args.push(String::from_str("-D"));
                args.push(String::from_str("tmp"));
                assert(views(args@) =~= seq!["branch"@, "-D"@, scratch_name()]);
            },
            ProbePhase::Finished => {
                return None;
            },
        }
        Some(args)
    }

    /// Takes note of how the command of the step ended, and moves on to the
    /// step that follows.
    pub fn advance(&mut self, outcome: ToolOutcome)
        ensures
            final(self)@ == old(self)@.after(outcome),
    {
        let success = match outcome {
            ToolOutcome::Success => true,
            _ => false,
        };
        let unavailable = match outcome {
            ToolOutcome::Unavailable(_) => true,
            _ => false,
        };
        let phase = self.phase;
        let next = match phase {
            ProbePhase::CreateScratch => if success {
                ProbePhase::CheckoutScratch
            } else {
                ProbePhase::Finished
            },
            ProbePhase::CheckoutScratch => if success {
                ProbePhase::Merge
            } else {
                ProbePhase::DeleteScratch
            },
            ProbePhase::Merge => if success {
                ProbePhase::ReturnToArea
            } else {
                ProbePhase::AbortMerge
            },
            ProbePhase::AbortMerge => ProbePhase::ReturnToArea,
            ProbePhase::ReturnToArea => ProbePhase::DeleteScratch,
            ProbePhase::DeleteScratch => ProbePhase::Finished,
            ProbePhase::Finished => {
                return ;
            },
        };
        let at_merge = phase == ProbePhase::Merge;
        if at_merge && !unavailable {
            self.merged = Some(success);
        }
        let conflict = at_merge && !success && !unavailable;
        if self.error.is_none() && !conflict {
            match outcome {
                ToolOutcome::Success => {},
                ToolOutcome::Failure(text) => {
                    self.error = Some(
                        GitError::GitInterface(GitInterfaceError::new(text.as_str())),
                    );
                },
                ToolOutcome::Unavailable(text) => {
                    self.error = Some(GitError::Io(text));
                },
            }
        }
        self.phase = next;
    }

    /// The statistic of the probe, once it is finished.
    pub fn result(self) -> (r: Option<ConflictStatistic>)
        ensures
            match r {
                Some(statistic) => self@.phase == ProbePhase::Finished && statistic@ == (
                StatisticView { left: self@.left, right: self@.right, verdict: self@.verdict() }),
                None => self@.phase != ProbePhase::Finished,
            },
    {
        if self.phase != ProbePhase::Finished {
            return None;
        }
        proof {
            reveal_strlit("");
            assert(""@ =~= Seq::<char>::empty());
        }
        let pair = (self.left, self.right);
        match self.error {
            Some(e) => Some(ConflictStatistic::ERROR(pair, e)),
            None => match self.merged {
                Some(true) => Some(ConflictStatistic::OK(pair)),
                Some(false) => Some(ConflictStatistic::CONFLICT(pair)),
                None => Some(
                    ConflictStatistic::ERROR(pair, GitError::GitInterface(GitInterfaceError::new(""))),
                ),
            },
        }
    }
}

/// A probe that has come to the merge step takes all the steps that clean
/// up, however the commands end: a merge that did not succeed is given up,
/// the area is checked out again, and the scratch branch is deleted.
pub proof fn lemma_probe_cleans_up(
    probe: ProbeView,
    merge: ToolOutcome,
    abort: ToolOutcome,
    back: ToolOutcome,
    delete: ToolOutcome,
)
    requires
        probe.phase == ProbePhase::Merge,
    ensures
        merge is Success ==> probe.after(merge).phase == ProbePhase::ReturnToArea && probe.after(
            merge,
        ).after(back).phase == ProbePhase::DeleteScratch && probe.after(merge).after(back).after(
            delete,
        ).phase == ProbePhase::Finished,
        !(merge is Success) ==> probe.after(merge).phase == ProbePhase::AbortMerge && probe.after(
            merge,
        ).after(abort).phase == ProbePhase::ReturnToArea && probe.after(merge).after(abort).after(
            back,
        ).phase == ProbePhase::DeleteScratch && probe.after(merge).after(abort).after(back).after(
            delete,
        ).phase == ProbePhase::Finished,
{
}

/// A finished probe says that the branches merged only if every command
/// that it ran ended in success.
pub proof fn lemma_merged_needs_successes(
    probe: ProbeView,
    create: ToolOutcome,
    checkout: ToolOutcome,
    merge: ToolOutcome,
    back: ToolOutcome,
    delete: ToolOutcome,
)
    requires
        probe.phase == ProbePhase::CreateScratch,
        probe.merged is None,
        probe.error is None,
    ensures
        ({
            let end = probe.after(create).after(checkout).after(merge).after(back).after(delete);
            (end.phase == ProbePhase::Finished && end.verdict() is Merged) <==> (create is Success
                && checkout is Success && merge is Success && back is Success
                && delete is Success)
        }),
{
}

/// The pairs of the path at `i` with the paths after it, up to index `j`.
pub open spec fn pairs_of_row(paths: Seq<Seq<Seq<char>>>, i: int, j: int) -> Seq<
    (Seq<Seq<char>>, Seq<Seq<char>>),
>
    decreases j,
{
    if j <= i + 1 || i < 0 {
        Seq::empty()
    } else {
        pairs_of_row(paths, i, j - 1).push((paths[i], paths[j - 1]))
    }
}

/// The pairs of every path before index `i` with every path after it.
pub open spec fn pairs_of_rows(paths: Seq<Seq<Seq<char>>>, i: int) -> Seq<
    (Seq<Seq<char>>, Seq<Seq<char>>),
>
    decreases i,
{
    if i <= 0 {
        Seq::empty()
    } else {
        pairs_of_rows(paths, i - 1) + pairs_of_row(paths, i - 1, paths.len() as int)
    }
}

/// All unordered pairs of the paths: each path with every path after it.
pub open spec fn all_pairs(paths: Seq<Seq<Seq<char>>>) -> Seq<(Seq<Seq<char>>, Seq<Seq<char>>)> {
    pairs_of_rows(paths, paths.len() as int)
}

/// The views of a sequence of pairs of paths.
pub open spec fn pair_views(pairs: Seq<(QualifiedPath, QualifiedPath)>) -> Seq<
    (Seq<Seq<char>>, Seq<Seq<char>>),
> {
    Seq::new(pairs.len(), |i: int| (pairs[i].0@, pairs[i].1@))
}

proof fn lemma_row_len(paths: Seq<Seq<Seq<char>>>, i: int, j: int)
    requires
        0 <= i < j,
    ensures
        pairs_of_row(paths, i, j).len() == j - i - 1,
    decreases j,
{
    if j > i + 1 {
        lemma_row_len(paths, i, j - 1);
    }
}

/// Of `k` paths there are `k * (k - 1) / 2` pairs.
pub proof fn lemma_number_of_pairs(paths: Seq<Seq<Seq<char>>>)
    ensures
        all_pairs(paths).len() * 2 == paths.len() * (paths.len() - 1),
{
    lemma_rows_len(paths, paths.len() as int);
    let n = paths.len() as int;
    assert(n * (2 * n - n - 1) == n * (n - 1)) by (nonlinear_arith);
}

proof fn lemma_rows_len(paths: Seq<Seq<Seq<char>>>, i: int)
    requires
        0 <= i <= paths.len(),
    ensures
        pairs_of_rows(paths, i).len() * 2 == i * (2 * paths.len() - i - 1),
    decreases i,
{
    let n = paths.len() as int;
    if i > 0 {
        lemma_rows_len(paths, i - 1);
        lemma_row_len(paths, i - 1, n);
        let a = pairs_of_rows(paths, i - 1).len() as int;
        let b = pairs_of_row(paths, i - 1, n).len() as int;
        assert(pairs_of_rows(paths, i).len() == a + b);
        assert(a * 2 == (i - 1) * (2 * n - (i - 1) - 1));
        assert(b == n - i);
        assert((a + b) * 2 == i * (2 * n - i - 1)) by (nonlinear_arith)
            requires
                a * 2 == (i - 1) * (2 * n - (i - 1) - 1),
                b == n - i,
        ;
    } else {
        assert(pairs_of_rows(paths, i).len() == 0);
        assert(0 == i * (2 * n - i - 1)) by (nonlinear_arith)
            requires
                i == 0,
        ;
    }
}

/// Probes the pairs of candidate branches of an area.
#[derive(Debug)]
pub struct ConflictChecker {
    area: QualifiedPath,
}

impl View for ConflictChecker {
    type V = Seq<Seq<char>>;

    closed spec fn view(&self) -> Seq<Seq<char>> {
        self.area@
    }
}

impl ConflictChecker {
    /// The checker that starts every probe from `area` and returns to it.
    pub fn new(area: QualifiedPath) -> (r: Self)
        ensures
            r@ == area@,
    {
        Self { area }
    }

    /// The pairs to probe: each path with every path after it.
    pub fn check(&self, paths: &Vec<QualifiedPath>) -> (r: Vec<(QualifiedPath, QualifiedPath)>)
        ensures
            pair_views(r@) == all_pairs(path_views(paths@)),
    {
        let ghost all = path_views(paths@);
        let mut out: Vec<(QualifiedPath, QualifiedPath)> = Vec::new();
        let n = paths.len();
        let mut i: usize = 0;
        proof {
            assert(pair_views(out@) =~= Seq::empty());
        }
        while i < n
            invariant
                i <= n,
                n == paths.len(),
                all == path_views(paths@),
                pair_views(out@) == pairs_of_rows(all, i as int),
            decreases n - i,
        {
            let mut j: usize = i + 1;
            proof {
                assert(pairs_of_rows(all, i as int) + pairs_of_row(all, i as int, i + 1)
                    =~= pairs_of_rows(all, i as int));
            }
            while j < n
                invariant
                    i < j <= n,
                    n == paths.len(),
                    all == path_views(paths@),
                    pair_views(out@) == pairs_of_rows(all, i as int) + pairs_of_row(
                        all,
                        i as int,
                        j as int,
                    ),
                decreases n - j,
            {
                let ghost before = pair_views(out@);
                let pair = (paths[i].clone(), paths[j].clone());
                out.push(pair);
                proof {
                    assert(pair_views(out@) =~= before.push((all[i as int], all[j as int])));
                    assert(pairs_of_rows(all, i as int) + pairs_of_row(all, i as int, j + 1)
                        =~= (pairs_of_rows(all, i as int) + pairs_of_row(
                        all,
                        i as int,
                        j as int,
                    )).push((all[i as int], all[j as int])));
                }
                j += 1;
            }
            i += 1;
        }
        out
    }

    /// The probe of the pair `l` and `r`, to start from the area of the
    /// checker and to return to it.
    pub fn check_two(&self, l: QualifiedPath, r: QualifiedPath) -> (probe: Probe)
        ensures
            probe@ == (ProbeView {
                left: l@,
                right: r@,
                area: self@,
                phase: ProbePhase::CreateScratch,
                merged: None,
                error: None,
            }),
    {
        Probe::new(self.area.clone(), l, r)
    }
}

} // verus!
