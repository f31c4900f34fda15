//! The worker's command dispatch: parse a submitted line, run a built-in
//! (`exit`, `jobs`, `fg`, `cd`) when it is the sole stage, or hand the
//! pipeline back to the caller to spawn. The worker only decides; the caller
//! performs terminal transfers, signals and process creation, and feeds the
//! results back through `register_job`, `spawn_failed` and `chdir_result`.

use vstd::prelude::*;
use crate::Reply;
use crate::jobs::JobModel;
use crate::jobs::ProcState;
use crate::jobs::Worker;
use crate::jobs::WorkerModel;
use crate::jobs::jobs_track_id;
use crate::numparse::parse_i32;
use crate::numparse::parse_i32_spec;
use crate::numparse::parse_job_id;
use crate::numparse::parse_job_id_spec;
use crate::parse::Pipeline;
use crate::parse::argv_view;
use crate::parse::has_empty_stage;
use crate::parse::parse_line;
use crate::parse::parse_spec;

verus! {

/// A user-visible error of a dispatched command; the caller renders the
/// message text. The offending token rides along where there is one.
pub enum UserError {
    Syntax,
    ExitJobsRunning,
    ExitBadArg(String),
    FgUsage,
    FgUnknownJob(String),
    CdUsage,
}

/// Mathematical image of a `UserError`.
pub ghost enum UserErrorModel {
    Syntax,
    ExitJobsRunning,
    ExitBadArg(Seq<char>),
    FgUsage,
    FgUnknownJob(Seq<char>),
    CdUsage,
}

impl View for UserError {
    type V = UserErrorModel;

    open spec fn view(&self) -> UserErrorModel {
        match self {
            UserError::Syntax => UserErrorModel::Syntax,
            UserError::ExitJobsRunning => UserErrorModel::ExitJobsRunning,
            UserError::ExitBadArg(t) => UserErrorModel::ExitBadArg(t@),
            UserError::FgUsage => UserErrorModel::FgUsage,
            UserError::FgUnknownJob(t) => UserErrorModel::FgUnknownJob(t@),
            UserError::CdUsage => UserErrorModel::CdUsage,
        }
    }
}

/// One line of the `jobs` listing.
pub struct JobReport {
    pub id: u64,
    pub pgid: i32,
    pub stopped: bool,
    pub cmd: String,
}

/// Mathematical image of a `JobReport`.
#[verifier::ext_equal]
pub ghost struct JobReportModel {
    pub id: int,
    pub pgid: int,
    pub stopped: bool,
    pub cmd: Seq<char>,
}

impl View for JobReport {
    type V = JobReportModel;

    open spec fn view(&self) -> JobReportModel {
        JobReportModel {
            id: self.id as int,
            pgid: self.pgid as int,
            stopped: self.stopped,
            cmd: self.cmd@,
        }
    }
}

/// What the worker asks of its caller after dispatching one command line.
pub enum CmdOutcome {
    /// Print the error, if any, and send the reply.
    Reply { reply: Reply, err: Option<UserError> },
    /// Print the listing and send `Continue(code)`.
    ListJobs { reports: Vec<JobReport>, code: i32 },
    /// Transfer the terminal to `pgid`, send the group a continue signal,
    /// and send no reply: it is deferred until the job stops or finishes.
    Foreground { pgid: i32, job_id: u64, cmd: String },
    /// Spawn the pipeline, then call `register_job` or `spawn_failed`.
    Spawn { pipeline: Pipeline },
    /// Change the working directory, then call `chdir_result`.
    Chdir { dir: String },
}

/// Mathematical image of a `CmdOutcome`.
#[verifier::ext_equal]
pub ghost enum CmdOutcomeModel {
    Reply { reply: Reply, err: Option<UserErrorModel> },
    ListJobs { reports: Seq<JobReportModel>, code: int },
    Foreground { pgid: int, job_id: int, cmd: Seq<char> },
    Spawn { stages: Seq<Seq<Seq<char>>>, background: bool },
    Chdir { dir: Seq<char> },
}

impl View for CmdOutcome {
    type V = CmdOutcomeModel;

    open spec fn view(&self) -> CmdOutcomeModel {
        match self {
            CmdOutcome::Reply { reply, err } => CmdOutcomeModel::Reply {
                reply: *reply,
                err: match err {
                    Some(e) => Some(e@),
                    None => None,
                },
            },
            CmdOutcome::ListJobs { reports, code } => CmdOutcomeModel::ListJobs {
                reports: reports@.map_values(|jr: JobReport| jr@),
                code: *code as int,
            },
            CmdOutcome::Foreground { pgid, job_id, cmd } => CmdOutcomeModel::Foreground {
                pgid: *pgid as int,
                job_id: *job_id as int,
                cmd: cmd@,
            },
            CmdOutcome::Spawn { pipeline } => CmdOutcomeModel::Spawn {
                stages: pipeline@.stages,
                background: pipeline@.background,
            },
            CmdOutcome::Chdir { dir } => CmdOutcomeModel::Chdir { dir: dir@ },
        }
    }
}

/// Exact character-for-character equality of two strings.
fn str_eq(a: &str, b: &str) -> (r: bool)
    ensures
        r == (a@ == b@),
{
    let na = a.unicode_len();
    let nb = b.unicode_len();
    if na != nb {
        return false;
    }
    let mut i: usize = 0;
    while i < na
        invariant
            i <= na,
            na == a@.len(),
            na == b@.len(),
            forall|q: int| 0 <= q < i ==> a@[q] == b@[q],
        decreases na - i,
    {
        if a.get_char(i) != b.get_char(i) {
            return false;
        }
        i += 1;
    }
    proof {
        assert(a@ =~= b@);
    }
    true
}

/// One job line of the `jobs` listing: stopped when any member is stopped.
pub open spec fn report_of(j: JobModel) -> JobReportModel {
    JobReportModel {
        id: j.id,
        pgid: j.pgid,
        stopped: !job_all_running(j),
        cmd: j.cmd,
    }
}

/// Every member of the job is running.
pub open spec fn job_all_running(j: JobModel) -> bool {
    forall|p: int| 0 <= p < j.procs.len() ==> (#[trigger] j.procs[p]).state == ProcState::Run
}

/// The whole listing, in ascending job-id order (the table's own order).
pub open spec fn jobs_reports(jobs: Seq<JobModel>) -> Seq<JobReportModel> {
    jobs.map_values(|j: JobModel| report_of(j))
}

/// The job carrying id `id`.
pub open spec fn job_with_id(jobs: Seq<JobModel>, id: int) -> JobModel {
    jobs[choose|i: int| 0 <= i < jobs.len() && (#[trigger] jobs[i]).id == id]
}

/// Effect of the `exit` built-in: refused while any job is tracked; with no
/// argument it quits with the last exit status; a numeric argument becomes
/// the exit code; anything else is an error.
pub open spec fn exit_step(w: WorkerModel, argv: Seq<Seq<char>>) -> (WorkerModel, CmdOutcomeModel) {
    if w.jobs.len() > 0 {
        (
            WorkerModel { exit_value: 1, ..w },
            CmdOutcomeModel::Reply {
                reply: Reply::Continue(1),
                err: Some(UserErrorModel::ExitJobsRunning),
            },
        )
    } else if argv.len() < 2 {
        (w, CmdOutcomeModel::Reply { reply: Reply::Quit(w.exit_value as i32), err: None })
    } else {
        match parse_i32_spec(argv[1]) {
            Some(n) => (w, CmdOutcomeModel::Reply { reply: Reply::Quit(n), err: None }),
            None => (
                WorkerModel { exit_value: 1, ..w },
                CmdOutcomeModel::Reply {
                    reply: Reply::Continue(1),
                    err: Some(UserErrorModel::ExitBadArg(argv[1])),
                },
            ),
        }
    }
}

/// Effect of the `fg` built-in: the status is marked failed up front and
/// stays so until the resumed job reports back. A known job id makes its
/// group the foreground one and defers the reply; a missing argument or an
/// unknown id is an error reported at once.
pub open spec fn fg_step(w: WorkerModel, argv: Seq<Seq<char>>) -> (WorkerModel, CmdOutcomeModel) {
    let w1 = WorkerModel { exit_value: 1, ..w };
    if argv.len() < 2 {
        (
            w1,
            CmdOutcomeModel::Reply {
                reply: Reply::Continue(1),
                err: Some(UserErrorModel::FgUsage),
            },
        )
    } else {
        match parse_job_id_spec(argv[1]) {
            Some(id) => if jobs_track_id(w.jobs, id as int) {
                let j = job_with_id(w.jobs, id as int);
                (
                    WorkerModel { exit_value: 1, fg: Some(j.pgid), ..w },
                    CmdOutcomeModel::Foreground { pgid: j.pgid, job_id: id as int, cmd: j.cmd },
                )
            } else {
                (
                    w1,
                    CmdOutcomeModel::Reply {
                        reply: Reply::Continue(1),
                        err: Some(UserErrorModel::FgUnknownJob(argv[1])),
                    },
                )
            },
            None => (
                w1,
                CmdOutcomeModel::Reply {
                    reply: Reply::Continue(1),
                    err: Some(UserErrorModel::FgUnknownJob(argv[1])),
                },
            ),
        }
    }
}

/// Effect of the `cd` built-in: with an argument, ask the caller to change
/// directory (the result comes back through `chdir_result`); without one,
/// an error.
pub open spec fn cd_step(w: WorkerModel, argv: Seq<Seq<char>>) -> (WorkerModel, CmdOutcomeModel) {
    if argv.len() < 2 {
        (
            WorkerModel { exit_value: 1, ..w },
            CmdOutcomeModel::Reply {
                reply: Reply::Continue(1),
                err: Some(UserErrorModel::CdUsage),
            },
        )
    } else {
        (w, CmdOutcomeModel::Chdir { dir: argv[1] })
    }
}

/// Effect of one submitted command line on the worker: a parse error is
/// reported and sets the status to failed without touching any job state; a
/// sole-stage built-in runs; anything else is a pipeline to spawn. A
/// built-in name inside a multi-stage pipeline is an ordinary command.
pub open spec fn command_step(w: WorkerModel, line: Seq<char>) -> (WorkerModel, CmdOutcomeModel) {
    match parse_spec(line) {
        None => (
            WorkerModel { exit_value: 1, ..w },
            CmdOutcomeModel::Reply {
                reply: Reply::Continue(1),
                err: Some(UserErrorModel::Syntax),
            },
        ),
        Some(sb) => {
            let stages = sb.0;
            let bg = sb.1;
            if stages.len() == 1 && stages[0][0] == "exit"@ {
                exit_step(w, stages[0])
            } else if stages.len() == 1 && stages[0][0] == "jobs"@ {
                (
                    w,
                    CmdOutcomeModel::ListJobs {
                        reports: jobs_reports(w.jobs),
                        code: w.exit_value,
                    },
                )
            } else if stages.len() == 1 && stages[0][0] == "fg"@ {
                fg_step(w, stages[0])
            } else if stages.len() == 1 && stages[0][0] == "cd"@ {
                cd_step(w, stages[0])
            } else {
                (w, CmdOutcomeModel::Spawn { stages, background: bg })
            }
        },
    }
}

/// Effect of the caller's report on a requested directory change.
pub open spec fn chdir_step(w: WorkerModel, ok: bool) -> (WorkerModel, Reply) {
    let code: int = if ok {
        0
    } else {
        1
    };
    (WorkerModel { exit_value: code, ..w }, Reply::Continue(code as i32))
}

impl Worker {
    /// Index of the job with id `id`, if any.
    fn find_job(&self, id: u64) -> (r: Option<usize>)
        ensures
            match r {
                Some(k) => k < self@.jobs.len() && self@.jobs[k as int].id == id as int,
                None => !jobs_track_id(self@.jobs, id as int),
            },
    {
        let mut k: usize = 0;
        while k < self.jobs.len()
            invariant
                k <= self@.jobs.len(),
                forall|m: int| 0 <= m < k ==> (#[trigger] self@.jobs[m]).id != id as int,
            decreases self@.jobs.len() - k,
        {
            if self.jobs[k].id == id {
                proof {
                    assert(self@.jobs[k as int].id == id as int);
                }
                return Some(k);
            }
            k += 1;
        }
        None
    }

    /// The `exit` built-in.
    pub fn run_exit(&mut self, argv: &Vec<String>) -> (r: CmdOutcome)
        requires
            old(self).wf(),
        ensures
            final(self).wf(),
            (final(self)@, r@) == exit_step(old(self)@, argv_view(*argv)),
    {
        let ghost pre = self@;
        if self.has_jobs() {
            self.exit_value = 1;
            proof {
                assert(self@ =~~= exit_step(pre, argv_view(*argv)).0);
            }
            CmdOutcome::Reply {
                reply: Reply::Continue(1),
                err: Some(UserError::ExitJobsRunning),
            }
        } else if argv.len() < 2 {
            CmdOutcome::Reply { reply: Reply::Quit(self.exit_value), err: None }
        } else {
            match parse_i32(argv[1].as_str()) {
                Some(n) => CmdOutcome::Reply { reply: Reply::Quit(n), err: None },
                None => {
                    self.exit_value = 1;
                    proof {
                        assert(self@ =~~= exit_step(pre, argv_view(*argv)).0);
                    }
                    CmdOutcome::Reply {
                        reply: Reply::Continue(1),
                        err: Some(UserError::ExitBadArg(argv[1].clone())),
                    }
                },
            }
        }
    }

    /// The `jobs` built-in: the listing, in ascending job-id order, and the
    /// status code to reply with.
    pub fn run_jobs(&self) -> (r: CmdOutcome)
        ensures
            r@ == (CmdOutcomeModel::ListJobs {
                reports: jobs_reports(self@.jobs),
                code: self@.exit_value,
            }),
    {
        let mut reports: Vec<JobReport> = Vec::new();
        let mut k: usize = 0;
        while k < self.jobs.len()
            invariant
                k <= self@.jobs.len(),
                reports@.len() == k,
                forall|m: int| 0 <= m < k ==> (#[trigger] reports@[m])@ == jobs_reports(self@.jobs)[m],
            decreases self@.jobs.len() - k,
        {
            let job = &self.jobs[k];
            let mut stopped = false;
            let mut p: usize = 0;
            while p < job.procs.len()
                invariant
                    p <= job.procs@.len(),
                    job == self.jobs@[k as int],
                    k < self.jobs@.len(),
                    stopped == !(forall|q: int|
                        0 <= q < p ==> (#[trigger] job.procs@[q]).state == ProcState::Run),
                decreases job.procs@.len() - p,
            {
                match job.procs[p].state {
                    ProcState::Stop => {
                        stopped = true;
                    },
                    ProcState::Run => {},
                }
                p += 1;
            }
            proof {
                assert(stopped == !job_all_running(self@.jobs[k as int]));
            }
            reports.push(JobReport {
                id: job.id,
                pgid: job.pgid,
                stopped,
                cmd: job.cmd.clone(),
            });
            k += 1;
        }
        proof {
            assert(reports@.map_values(|jr: JobReport| jr@) =~~= jobs_reports(self@.jobs));
        }
        CmdOutcome::ListJobs { reports, code: self.exit_value }
    }

    /// The `fg` built-in.
    pub fn run_fg(&mut self, argv: &Vec<String>) -> (r: CmdOutcome)
        requires
            old(self).wf(),
        ensures
            final(self).wf(),
            (final(self)@, r@) == fg_step(old(self)@, argv_view(*argv)),
    {
        let ghost pre = self@;
        self.exit_value = 1;
        proof {
            assert(self@ =~~= (WorkerModel { exit_value: 1, ..pre }));
        }
        if argv.len() < 2 {
            return CmdOutcome::Reply {
                reply: Reply::Continue(1),
                err: Some(UserError::FgUsage),
            };
        }
        match parse_job_id(argv[1].as_str()) {
            Some(id) => {
                match self.find_job(id) {
                    Some(k) => {
                        let pgid = self.jobs[k].pgid;
                        let cmd = self.jobs[k].cmd.clone();
                        self.fg = Some(pgid);
                        proof {
                            let c = choose|i: int|
                                0 <= i < pre.jobs.len() && (#[trigger] pre.jobs[i]).id
                                    == id as int;
                            if c != k as int {
                                assert(pre.jobs[c].id != pre.jobs[k as int].id);
                            }
                            assert(job_with_id(pre.jobs, id as int) == pre.jobs[k as int]);
                            assert(self@.jobs[k as int].pgid == pgid as int);
                            assert(self@ =~~= fg_step(pre, argv_view(*argv)).0);
                        }
                        CmdOutcome::Foreground { pgid, job_id: id, cmd }
                    },
                    None => CmdOutcome::Reply {
                        reply: Reply::Continue(1),
                        err: Some(UserError::FgUnknownJob(argv[1].clone())),
                    },
                }
            },
            None => CmdOutcome::Reply {
                reply: Reply::Continue(1),
                err: Some(UserError::FgUnknownJob(argv[1].clone())),
            },
        }
    }

    /// The `cd` built-in: only the decision; the caller changes directory
    /// and reports back through `chdir_result`.
    pub fn run_cd(&mut self, argv: &Vec<String>) -> (r: CmdOutcome)
        requires
            old(self).wf(),
        ensures
            final(self).wf(),
            (final(self)@, r@) == cd_step(old(self)@, argv_view(*argv)),
    {
        let ghost pre = self@;
        if argv.len() < 2 {
            self.exit_value = 1;
            proof {
                assert(self@ =~~= cd_step(pre, argv_view(*argv)).0);
            }
            CmdOutcome::Reply { reply: Reply::Continue(1), err: Some(UserError::CdUsage) }
        } else {
            CmdOutcome::Chdir { dir: argv[1].clone() }
        }
    }

    /// Outcome of the caller's attempt to change directory: the new status,
    /// and the reply to send.
    pub fn chdir_result(&mut self, ok: bool) -> (r: Reply)
        requires
            old(self).wf(),
        ensures
            final(self).wf(),
            (final(self)@, r) == chdir_step(old(self)@, ok),
    {
        let ghost pre = self@;
        self.exit_value = if ok {
            0
        } else {
            1
        };
        proof {
            assert(self@ =~~= chdir_step(pre, ok).0);
        }
        Reply::Continue(self.exit_value)
    }

    /// Reply after a pipeline could not be spawned at all: resume reading
    /// with the status unchanged.
    pub fn spawn_failed(&self) -> (r: Reply)
        ensures
            r == Reply::Continue(self@.exit_value as i32),
    {
        Reply::Continue(self.exit_value)
    }

    /// Dispatch one submitted command line, as `command_step` decides it.
    pub fn on_command(&mut self, line: &str) -> (r: CmdOutcome)
        requires
            old(self).wf(),
        ensures
            final(self).wf(),
            (final(self)@, r@) == command_step(old(self)@, line@),
    {
        let ghost pre = self@;
        match parse_line(line) {
            None => {
                self.exit_value = 1;
                proof {
                    assert(self@ =~~= command_step(pre, line@).0);
                }
                CmdOutcome::Reply {
                    reply: Reply::Continue(1),
                    err: Some(UserError::Syntax),
                }
            },
            Some(p) => {
                proof {
                    assert(!has_empty_stage(p@.stages));
                    assert(p@.stages[0].len() > 0);
                    assert(p@.stages[0] == argv_view(p.stages@[0]));
                }
                let single = p.stages.len() == 1;
                let arg0 = &p.stages[0];
                proof {
                    assert(arg0@[0]@ == p@.stages[0][0]);
                }
                if single && str_eq(arg0[0].as_str(), "exit") {
                    self.run_exit(arg0)
                } else if single && str_eq(arg0[0].as_str(), "jobs") {
                    self.run_jobs()
                } else if single && str_eq(arg0[0].as_str(), "fg") {
                    self.run_fg(arg0)
                } else if single && str_eq(arg0[0].as_str(), "cd") {
                    self.run_cd(arg0)
                } else {
                    CmdOutcome::Spawn { pipeline: p }
                }
            },
        }
    }
}

} // verus!
