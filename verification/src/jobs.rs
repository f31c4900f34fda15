//! The job-control tables owned by the worker: tracked jobs, their process
//! groups and member processes, the foreground reference and the last exit
//! status, together with the transitions that the wait-status reconciliation
//! path performs on them.

use vstd::prelude::*;
use crate::Reply;

verus! {

/// Execution state of one child process, as last reported by the OS.
#[derive(Clone, Copy, PartialEq, Eq, Structural, Debug)]
pub enum ProcState {
    Run,
    Stop,
}

/// One member process of a job: its pid and its last known state.
#[derive(Clone, Copy, PartialEq, Eq, Structural, Debug)]
pub struct ProcEntry {
    pub pid: i32,
    pub state: ProcState,
}

/// A tracked job: one command line's process group. The job id is a small
/// positive integer allocated as the lowest unused id; `procs` holds every
/// member process of the group that is still alive. `final_pid` is the
/// pipeline's last stage, and `final_status` latches that stage's exit code
/// the moment it is reaped: the job's reported status is the last stage's,
/// whatever order the wait poll reaps the members in.
pub struct Job {
    pub id: u64,
    pub pgid: i32,
    pub cmd: String,
    pub procs: Vec<ProcEntry>,
    pub final_pid: i32,
    pub final_status: i32,
}

/// Mathematical image of a `Job`.
#[verifier::ext_equal]
pub ghost struct JobModel {
    pub id: int,
    pub pgid: int,
    pub cmd: Seq<char>,
    pub procs: Seq<ProcEntry>,
    pub final_pid: int,
    pub final_status: int,
}

impl View for Job {
    type V = JobModel;

    open spec fn view(&self) -> JobModel {
        JobModel {
            id: self.id as int,
            pgid: self.pgid as int,
            cmd: self.cmd@,
            procs: self.procs@,
            final_pid: self.final_pid as int,
            final_status: self.final_status as int,
        }
    }
}

/// All job-control state, owned by the single worker actor. `fg` is the
/// foreground reference: `Some(pgid)` means that group holds the terminal and
/// the reply to the controller is deferred until it stops or finishes; `None`
/// means the shell itself holds the terminal and no reply is owed.
pub struct Worker {
    pub exit_value: i32,
    pub fg: Option<i32>,
    pub jobs: Vec<Job>,
    pub shell_pgid: i32,
}

/// Mathematical image of the worker state.
#[verifier::ext_equal]
pub ghost struct WorkerModel {
    pub exit_value: int,
    pub fg: Option<int>,
    pub jobs: Seq<JobModel>,
    pub shell_pgid: int,
}

impl View for Worker {
    type V = WorkerModel;

    open spec fn view(&self) -> WorkerModel {
        WorkerModel {
            exit_value: self.exit_value as int,
            fg: match self.fg {
                Some(g) => Some(g as int),
                None => None,
            },
            jobs: self.jobs@.map_values(|j: Job| j@),
            shell_pgid: self.shell_pgid as int,
        }
    }
}

/// Well-formedness of a single job: a positive id, a positive group id, at
/// least one member (a job with no live member is removed, never kept), and
/// distinct positive member pids.
pub open spec fn job_wf(j: JobModel) -> bool {
    &&& 1 <= j.id
    &&& 0 < j.pgid
    &&& 1 <= j.procs.len()
    &&& forall|p: int, q: int|
        0 <= p < q < j.procs.len() ==> j.procs[p].pid != j.procs[q].pid
    &&& forall|p: int| 0 <= p < j.procs.len() ==> 0 < #[trigger] j.procs[p].pid
}

/// Does job `j` track the process `pid`?
pub open spec fn pid_in_job(j: JobModel, pid: int) -> bool {
    exists|p: int| 0 <= p < j.procs.len() && j.procs[p].pid == pid
}

/// Is `pid` tracked by some job of the table?
pub open spec fn jobs_track_pid(jobs: Seq<JobModel>, pid: int) -> bool {
    exists|i: int| 0 <= i < jobs.len() && #[trigger] pid_in_job(jobs[i], pid)
}

/// Is `pgid` the group of some tracked job?
pub open spec fn jobs_track_pgid(jobs: Seq<JobModel>, pgid: int) -> bool {
    exists|i: int| 0 <= i < jobs.len() && #[trigger] jobs[i].pgid == pgid
}

/// Is `id` the job id of some tracked job?
pub open spec fn jobs_track_id(jobs: Seq<JobModel>, id: int) -> bool {
    exists|i: int| 0 <= i < jobs.len() && #[trigger] jobs[i].id == id
}

/// No pid is tracked by both of two distinct jobs.
pub open spec fn procs_disjoint(a: JobModel, b: JobModel) -> bool {
    forall|pid: int| !(#[trigger] pid_in_job(a, pid) && pid_in_job(b, pid))
}

/// Well-formedness of the job table: every job well formed, ids strictly
/// ascending (the table is kept sorted for display), group ids distinct, and
/// member pids disjoint across jobs.
pub open spec fn jobs_wf(jobs: Seq<JobModel>) -> bool {
    &&& forall|i: int| 0 <= i < jobs.len() ==> job_wf(#[trigger] jobs[i])
    &&& forall|i: int, k: int| 0 <= i < k < jobs.len() ==> jobs[i].id < jobs[k].id
    &&& forall|i: int, k: int| 0 <= i < k < jobs.len() ==> jobs[i].pgid != jobs[k].pgid
    &&& forall|i: int, k: int|
        0 <= i < k < jobs.len() ==> procs_disjoint(#[trigger] jobs[i], #[trigger] jobs[k])
}

/// Well-formedness of the whole worker state. The foreground reference, when
/// set, names the group of a tracked job (the spec's invariant: either no
/// foreground job, or a foreground job with at least one live process).
pub open spec fn worker_wf(w: WorkerModel) -> bool {
    &&& 0 < w.shell_pgid
    &&& jobs_wf(w.jobs)
    &&& forall|i: int| 0 <= i < w.jobs.len() ==> (#[trigger] w.jobs[i].pgid) != w.shell_pgid
    &&& match w.fg {
        Some(g) => jobs_track_pgid(w.jobs, g),
        None => true,
    }
}

/// The process group that must be holding the terminal when the worker's
/// state is `w`: the foreground group if one is set, else the shell's own.
pub open spec fn terminal_owner(w: WorkerModel) -> int {
    match w.fg {
        Some(g) => g,
        None => w.shell_pgid,
    }
}

impl Worker {
    pub open spec fn wf(&self) -> bool {
        worker_wf(self@)
    }

    /// Fresh worker state: no jobs, no foreground group, last exit status 0.
    /// The caller supplies the shell's own process-group id, captured once
    /// from the terminal at startup.
    pub fn new(shell_pgid: i32) -> (w: Worker)
        requires
            0 < shell_pgid,
        ensures
            w.wf(),
            w@ == (WorkerModel {
                exit_value: 0,
                fg: None,
                jobs: Seq::<JobModel>::empty(),
                shell_pgid: shell_pgid as int,
            }),
    {
        let w = Worker { exit_value: 0, fg: None, jobs: Vec::new(), shell_pgid };
        proof {
            assert(w@.jobs =~= Seq::<JobModel>::empty());
            assert(w@ =~= WorkerModel {
                exit_value: 0,
                fg: None,
                jobs: Seq::<JobModel>::empty(),
                shell_pgid: shell_pgid as int,
            });
        }
        w
    }

    /// Position of the process `pid` in the tables, if it is tracked: the
    /// index of its job and the index of its entry in that job's member list.
    fn locate_pid(&self, pid: i32) -> (r: Option<(usize, usize)>)
        ensures
            match r {
                Some(ip) => ip.0 < self.jobs@.len() && ip.1 < self@.jobs[ip.0 as int].procs.len()
                    && self@.jobs[ip.0 as int].procs[ip.1 as int].pid == pid
                    && pid_in_job(self@.jobs[ip.0 as int], pid as int),
                None => !jobs_track_pid(self@.jobs, pid as int),
            },
    {
        let mut i: usize = 0;
        while i < self.jobs.len()
            invariant
                i <= self.jobs@.len(),
                forall|k: int| 0 <= k < i ==> !pid_in_job(#[trigger] self@.jobs[k], pid as int),
            decreases self.jobs@.len() - i,
        {
            let job = &self.jobs[i];
            let mut p: usize = 0;
            while p < job.procs.len()
                invariant
                    p <= job.procs@.len(),
                    job == self.jobs@[i as int],
                    i < self.jobs@.len(),
                    forall|k: int| 0 <= k < p ==> job.procs@[k].pid != pid,
                decreases job.procs@.len() - p,
            {
                if job.procs[p].pid == pid {
                    assert(pid_in_job(self@.jobs[i as int], pid as int));
                    return Some((i, p));
                }
                p += 1;
            }
            assert(!pid_in_job(self@.jobs[i as int], pid as int));
            i += 1;
        }
        proof {
            assert forall|k: int| 0 <= k < self@.jobs.len() implies
                !pid_in_job(#[trigger] self@.jobs[k], pid as int) by {}
        }
        None
    }

    /// Whether some tracked job owns the process `pid`.
    pub fn tracks_pid(&self, pid: i32) -> (r: bool)
        ensures
            r == jobs_track_pid(self@.jobs, pid as int),
    {
        match self.locate_pid(pid) {
            Some(ip) => {
                proof {
                    assert(jobs_track_pid(self@.jobs, pid as int));
                }
                true
            },
            None => false,
        }
    }

    /// Whether some tracked job has group id `pgid`.
    pub fn tracks_pgid(&self, pgid: i32) -> (r: bool)
        ensures
            r == jobs_track_pgid(self@.jobs, pgid as int),
    {
        let mut i: usize = 0;
        while i < self.jobs.len()
            invariant
                i <= self.jobs@.len(),
                forall|k: int| 0 <= k < i ==> (#[trigger] self@.jobs[k].pgid) != pgid as int,
            decreases self.jobs@.len() - i,
        {
            if self.jobs[i].pgid == pgid {
                proof {
                    assert(self@.jobs[i as int].pgid == pgid as int);
                }
                return true;
            }
            i += 1;
        }
        false
    }

    /// Whether the job table is empty.
    pub fn has_jobs(&self) -> (r: bool)
        ensures
            r == (self@.jobs.len() > 0),
    {
        self.jobs.len() > 0
    }
}

/// What the worker asks of its caller after reconciling one child-status
/// change: restore terminal control to the shell's own group, and/or deliver
/// a reply that was deferred while the foreground job ran.
pub struct ReapOutcome {
    pub restore_terminal: bool,
    pub reply: Option<Reply>,
}

/// The member list with every entry for `pid` removed.
pub open spec fn remove_pid_entry(procs: Seq<ProcEntry>, pid: int) -> Seq<ProcEntry>
    decreases procs.len(),
{
    if procs.len() == 0 {
        Seq::<ProcEntry>::empty()
    } else if procs[0].pid == pid {
        remove_pid_entry(procs.subrange(1, procs.len() as int), pid)
    } else {
        seq![procs[0]] + remove_pid_entry(procs.subrange(1, procs.len() as int), pid)
    }
}

/// The job with the process `pid` no longer a member; if `pid` is the job's
/// own final stage, its exit `status` is latched as the job's status.
pub open spec fn reap_job(j: JobModel, pid: int, status: i32) -> JobModel {
    JobModel {
        procs: remove_pid_entry(j.procs, pid),
        final_status: if pid_in_job(j, pid) && j.final_pid == pid {
            status as int
        } else {
            j.final_status
        },
        ..j
    }
}

/// The job table after the process `pid` is confirmed gone with `status`:
/// `pid` leaves its job's member set (latching the status when it is the
/// final stage), and a job whose member set becomes empty is removed.
pub open spec fn reap_jobs(jobs: Seq<JobModel>, pid: int, status: i32) -> Seq<JobModel>
    decreases jobs.len(),
{
    if jobs.len() == 0 {
        Seq::<JobModel>::empty()
    } else {
        let j0 = reap_job(jobs[0], pid, status);
        let rest = reap_jobs(jobs.subrange(1, jobs.len() as int), pid, status);
        if j0.procs.len() == 0 {
            rest
        } else {
            seq![j0] + rest
        }
    }
}

/// The job that tracks `pid`.
pub open spec fn pid_job(jobs: Seq<JobModel>, pid: int) -> JobModel {
    let i = choose|i: int| 0 <= i < jobs.len() && #[trigger] pid_in_job(jobs[i], pid);
    jobs[i]
}

proof fn lemma_remove_untracked(procs: Seq<ProcEntry>, pid: int)
    requires
        forall|p: int| 0 <= p < procs.len() ==> (#[trigger] procs[p].pid) != pid,
    ensures
        remove_pid_entry(procs, pid) == procs,
    decreases procs.len(),
{
    if procs.len() > 0 {
        lemma_remove_untracked(procs.subrange(1, procs.len() as int), pid);
        assert(remove_pid_entry(procs, pid) =~= procs);
    } else {
        assert(remove_pid_entry(procs, pid) =~= procs);
    }
}

proof fn lemma_remove_at(procs: Seq<ProcEntry>, pid: int, p: int)
    requires
        0 <= p < procs.len(),
        procs[p].pid == pid,
        forall|q: int| 0 <= q < procs.len() && q != p ==> (#[trigger] procs[q].pid) != pid,
    ensures
        remove_pid_entry(procs, pid) == procs.remove(p),
    decreases procs.len(),
{
    if p == 0 {
        lemma_remove_untracked(procs.subrange(1, procs.len() as int), pid);
        assert(remove_pid_entry(procs, pid) =~= procs.remove(0));
    } else {
        lemma_remove_at(procs.subrange(1, procs.len() as int), pid, p - 1);
        assert(remove_pid_entry(procs, pid) =~= procs.remove(p));
    }
}

proof fn lemma_reap_jobs_untracked(jobs: Seq<JobModel>, pid: int, status: i32)
    requires
        !jobs_track_pid(jobs, pid),
        forall|i: int| 0 <= i < jobs.len() ==> 1 <= (#[trigger] jobs[i]).procs.len(),
    ensures
        reap_jobs(jobs, pid, status) == jobs,
    decreases jobs.len(),
{
    if jobs.len() > 0 {
        assert(!pid_in_job(jobs[0], pid));
        assert(forall|p: int| 0 <= p < jobs[0].procs.len()
            ==> (#[trigger] jobs[0].procs[p].pid) != pid);
        lemma_remove_untracked(jobs[0].procs, pid);
        assert(reap_job(jobs[0], pid, status) =~~= jobs[0]);
        let sub = jobs.subrange(1, jobs.len() as int);
        assert forall|i: int| 0 <= i < sub.len() implies
            !pid_in_job(#[trigger] sub[i], pid) by {
            assert(sub[i] == jobs[i + 1]);
            assert(!pid_in_job(jobs[i + 1], pid));
        }
        lemma_reap_jobs_untracked(sub, pid, status);
        assert(reap_jobs(jobs, pid, status) =~= jobs);
    } else {
        assert(reap_jobs(jobs, pid, status) =~= jobs);
    }
}

/// Reaping a pid that one job tracks touches that job alone: the job is
/// dropped when the pid was its last member, and merely shrunk (and its
/// status latched when the pid is its final stage) otherwise.
proof fn lemma_reap_jobs_at(jobs: Seq<JobModel>, pid: int, status: i32, k: int, p: int)
    requires
        jobs_wf(jobs),
        0 <= k < jobs.len(),
        0 <= p < jobs[k].procs.len(),
        jobs[k].procs[p].pid == pid,
    ensures
        reap_job(jobs[k], pid, status).procs == jobs[k].procs.remove(p),
        jobs[k].procs.len() == 1 ==> reap_jobs(jobs, pid, status) == jobs.remove(k),
        jobs[k].procs.len() > 1 ==> reap_jobs(jobs, pid, status) == jobs.update(
            k,
            reap_job(jobs[k], pid, status),
        ),
    decreases jobs.len(),
{
    assert(pid_in_job(jobs[k], pid));
    assert forall|q: int| 0 <= q < jobs[k].procs.len() && q != p implies
        (#[trigger] jobs[k].procs[q].pid) != pid by {}
    lemma_remove_at(jobs[k].procs, pid, p);
    let sub = jobs.subrange(1, jobs.len() as int);
    if k == 0 {
        assert forall|i: int| 0 <= i < sub.len() implies
            !pid_in_job(#[trigger] sub[i], pid) by {
            assert(sub[i] == jobs[i + 1]);
            assert(procs_disjoint(jobs[0], jobs[i + 1]));
        }
        assert forall|i: int| 0 <= i < sub.len() implies
            1 <= (#[trigger] sub[i]).procs.len() by {
            assert(sub[i] == jobs[i + 1]);
            assert(job_wf(jobs[i + 1]));
        }
        lemma_reap_jobs_untracked(sub, pid, status);
        if jobs[0].procs.len() == 1 {
            assert(jobs[0].procs.remove(0) =~= Seq::<ProcEntry>::empty());
            assert(reap_jobs(jobs, pid, status) =~= jobs.remove(0));
        } else {
            assert(reap_jobs(jobs, pid, status) =~=
                jobs.update(0, reap_job(jobs[0], pid, status)));
        }
    } else {
        assert(procs_disjoint(jobs[0], jobs[k]));
        assert(!pid_in_job(jobs[0], pid));
        assert(forall|q: int| 0 <= q < jobs[0].procs.len()
            ==> (#[trigger] jobs[0].procs[q].pid) != pid);
        lemma_remove_untracked(jobs[0].procs, pid);
        assert(reap_job(jobs[0], pid, status) =~~= jobs[0]);
        assert(job_wf(jobs[0]));
        assert forall|i: int, m: int| 0 <= i < m < sub.len() implies
            sub[i].id < sub[m].id && sub[i].pgid != sub[m].pgid
                && procs_disjoint(#[trigger] sub[i], #[trigger] sub[m]) by {
            assert(sub[i] == jobs[i + 1]);
            assert(sub[m] == jobs[m + 1]);
        }
        assert forall|i: int| 0 <= i < sub.len() implies job_wf(#[trigger] sub[i]) by {
            assert(sub[i] == jobs[i + 1]);
        }
        assert(sub[k - 1] == jobs[k]);
        lemma_reap_jobs_at(sub, pid, status, k - 1, p);
        if jobs[k].procs.len() == 1 {
            assert(reap_jobs(jobs, pid, status) =~= jobs.remove(k));
        } else {
            assert(reap_jobs(jobs, pid, status) =~=
                jobs.update(k, reap_job(jobs[k], pid, status)));
        }
    }
}

/// No job tracks `pid` once it has been reaped: a pid appears in at most one
/// removal event, and reaping it a second time changes nothing.
pub proof fn lemma_reap_jobs_no_pid(jobs: Seq<JobModel>, pid: int, status: i32)
    ensures
        !jobs_track_pid(reap_jobs(jobs, pid, status), pid),
    decreases jobs.len(),
{
    if jobs.len() > 0 {
        let sub = jobs.subrange(1, jobs.len() as int);
        lemma_reap_jobs_no_pid(sub, pid, status);
        lemma_remove_no_pid(jobs[0].procs, pid);
        let r = reap_jobs(jobs, pid, status);
        let j0 = reap_job(jobs[0], pid, status);
        if j0.procs.len() == 0 {
        } else {
            assert forall|i: int| 0 <= i < r.len() implies
                !pid_in_job(#[trigger] r[i], pid) by {
                if i == 0 {
                    assert(r[0] == j0);
                } else {
                    assert(r[i] == reap_jobs(sub, pid, status)[i - 1]);
                    assert(!pid_in_job(reap_jobs(sub, pid, status)[i - 1], pid));
                }
            }
        }
    }
}

proof fn lemma_remove_no_pid(procs: Seq<ProcEntry>, pid: int)
    ensures
        forall|q: int| 0 <= q < remove_pid_entry(procs, pid).len()
            ==> (#[trigger] remove_pid_entry(procs, pid)[q].pid) != pid,
    decreases procs.len(),
{
    if procs.len() > 0 {
        lemma_remove_no_pid(procs.subrange(1, procs.len() as int), pid);
    }
}

/// The member list with the entry for `pid`, if any, marked `st`.
pub open spec fn set_entry_state(procs: Seq<ProcEntry>, pid: int, st: ProcState) -> Seq<ProcEntry> {
    procs.map_values(|e: ProcEntry| if e.pid == pid {
        ProcEntry { pid: e.pid, state: st }
    } else {
        e
    })
}

/// The job with the process `pid`, if it is a member, marked `st`.
pub open spec fn set_job_state(j: JobModel, pid: int, st: ProcState) -> JobModel {
    JobModel { procs: set_entry_state(j.procs, pid, st), ..j }
}

/// The job table with the process `pid`, wherever tracked, marked `st`.
pub open spec fn set_jobs_state(jobs: Seq<JobModel>, pid: int, st: ProcState) -> Seq<JobModel> {
    jobs.map_values(|j: JobModel| set_job_state(j, pid, st))
}

/// Every member of the job is stopped.
pub open spec fn job_all_stopped(j: JobModel) -> bool {
    forall|p: int| 0 <= p < j.procs.len() ==> (#[trigger] j.procs[p]).state == ProcState::Stop
}

/// Every member of every job of group `g` is stopped.
pub open spec fn group_all_stopped(jobs: Seq<JobModel>, g: int) -> bool {
    forall|i: int| 0 <= i < jobs.len() && (#[trigger] jobs[i]).pgid == g ==> job_all_stopped(jobs[i])
}

/// Effect of one reported child exit (or death by signal): the pid leaves
/// the tables, latching its status in the job when it is the final stage; a
/// job whose member set empties is removed; if that job was the foreground
/// one, terminal control returns to the shell and the deferred reply is
/// delivered carrying the job's final-stage status — the last stage's exit
/// code whatever order the members were reaped in — which also becomes the
/// last exit status. An untracked pid changes nothing.
pub open spec fn exited_step(w: WorkerModel, pid: int, status: i32) -> (WorkerModel, ReapOutcome) {
    if !jobs_track_pid(w.jobs, pid) {
        (w, ReapOutcome { restore_terminal: false, reply: None })
    } else {
        let j = pid_job(w.jobs, pid);
        let fin = reap_job(j, pid, status).final_status;
        let jobs2 = reap_jobs(w.jobs, pid, status);
        if w.fg == Some(j.pgid) && !jobs_track_pgid(jobs2, j.pgid) {
            (
                WorkerModel { exit_value: fin, fg: None, jobs: jobs2, ..w },
                ReapOutcome {
                    restore_terminal: true,
                    reply: Some(Reply::Continue(fin as i32)),
                },
            )
        } else {
            (WorkerModel { jobs: jobs2, ..w }, ReapOutcome { restore_terminal: false, reply: None })
        }
    }
}

/// Effect of one reported stop: the pid is marked stopped; if that leaves the
/// whole foreground group stopped, terminal control returns to the shell and
/// the deferred reply is delivered carrying the last exit status. An
/// untracked pid changes nothing.
pub open spec fn stopped_step(w: WorkerModel, pid: int) -> (WorkerModel, ReapOutcome) {
    if !jobs_track_pid(w.jobs, pid) {
        (w, ReapOutcome { restore_terminal: false, reply: None })
    } else {
        let jobs2 = set_jobs_state(w.jobs, pid, ProcState::Stop);
        let g = pid_job(w.jobs, pid).pgid;
        if w.fg == Some(g) && group_all_stopped(jobs2, g) {
            (
                WorkerModel { fg: None, jobs: jobs2, ..w },
                ReapOutcome {
                    restore_terminal: true,
                    reply: Some(Reply::Continue(w.exit_value as i32)),
                },
            )
        } else {
            (WorkerModel { jobs: jobs2, ..w }, ReapOutcome { restore_terminal: false, reply: None })
        }
    }
}

/// Effect of one reported continue: the pid is marked running again; no
/// structural change, no terminal change, no reply.
pub open spec fn continued_step(w: WorkerModel, pid: int) -> WorkerModel {
    if !jobs_track_pid(w.jobs, pid) {
        w
    } else {
        WorkerModel { jobs: set_jobs_state(w.jobs, pid, ProcState::Run), ..w }
    }
}

/// Two jobs agree on everything but their members' states: same id, group,
/// command, final stage, latched status, and the same member pids in the
/// same order.
pub open spec fn same_job_shape(a: JobModel, b: JobModel) -> bool {
    &&& a.id == b.id
    &&& a.pgid == b.pgid
    &&& a.cmd == b.cmd
    &&& a.final_pid == b.final_pid
    &&& a.final_status == b.final_status
    &&& a.procs.len() == b.procs.len()
    &&& forall|p: int| 0 <= p < b.procs.len() ==> (#[trigger] a.procs[p]).pid == b.procs[p].pid
}

/// One stop report against a worker with no foreground job: nothing is
/// removed, nothing is replied, the terminal stays put, and the reported pid
/// — it alone — is marked stopped wherever it is tracked.
pub proof fn lemma_stopped_step_background(w: WorkerModel, pid: int)
    requires
        worker_wf(w),
        w.fg is None,
    ensures
        ({
            let r = stopped_step(w, pid);
            &&& worker_wf(r.0)
            &&& r.0.fg is None
            &&& r.0.exit_value == w.exit_value
            &&& r.0.shell_pgid == w.shell_pgid
            &&& !r.1.restore_terminal
            &&& r.1.reply is None
            &&& r.0.jobs.len() == w.jobs.len()
            &&& forall|i: int| 0 <= i < w.jobs.len()
                ==> same_job_shape(#[trigger] r.0.jobs[i], w.jobs[i])
            &&& forall|i: int, p: int|
                0 <= i < w.jobs.len() && 0 <= p < w.jobs[i].procs.len()
                    ==> (#[trigger] r.0.jobs[i].procs[p]).state == (
                    if w.jobs[i].procs[p].pid == pid {
                        ProcState::Stop
                    } else {
                        w.jobs[i].procs[p].state
                    })
        }),
{
    let r = stopped_step(w, pid);
    if !jobs_track_pid(w.jobs, pid) {
        assert forall|i: int| 0 <= i < w.jobs.len() implies
            same_job_shape(#[trigger] r.0.jobs[i], w.jobs[i]) by {}
        assert forall|i: int, p: int|
            0 <= i < w.jobs.len() && 0 <= p < w.jobs[i].procs.len() implies
            (#[trigger] r.0.jobs[i].procs[p]).state == (
            if w.jobs[i].procs[p].pid == pid {
                ProcState::Stop
            } else {
                w.jobs[i].procs[p].state
            }) by {
            assert(!pid_in_job(w.jobs[i], pid));
            assert(w.jobs[i].procs[p].pid != pid);
        }
    } else {
        let k = choose|k: int| 0 <= k < w.jobs.len() && #[trigger] pid_in_job(w.jobs[k], pid);
        let p0 = choose|p0: int|
            0 <= p0 < w.jobs[k].procs.len() && w.jobs[k].procs[p0].pid == pid;
        lemma_set_jobs_state_at(w.jobs, pid, ProcState::Stop, k, p0);
        let jobs2 = set_jobs_state(w.jobs, pid, ProcState::Stop);
        assert forall|i: int| 0 <= i < w.jobs.len() implies
            same_job_shape(#[trigger] jobs2[i], w.jobs[i]) by {
            assert(jobs2[i] == set_job_state(w.jobs[i], pid, ProcState::Stop));
            assert forall|p: int| 0 <= p < w.jobs[i].procs.len() implies
                (#[trigger] jobs2[i].procs[p]).pid == w.jobs[i].procs[p].pid by {}
        }
        assert forall|i: int, p: int|
            0 <= i < w.jobs.len() && 0 <= p < w.jobs[i].procs.len() implies
            (#[trigger] jobs2[i].procs[p]).state == (
            if w.jobs[i].procs[p].pid == pid {
                ProcState::Stop
            } else {
                w.jobs[i].procs[p].state
            }) by {
            assert(jobs2[i] == set_job_state(w.jobs[i], pid, ProcState::Stop));
        }
        assert(worker_wf(r.0));
    }
}


/// The foreground-pipeline status law, for a two-stage job: once both
/// members have exited, the job is gone, terminal control returns to the
/// shell, and the deferred reply and recorded last exit status carry the
/// final stage's exit code — in whichever order the wait poll reaped the
/// two stages, and whatever the first stage's code was.
pub proof fn lemma_pipeline_reports_final_stage(w: WorkerModel, k: int, sa: i32, sb: i32)
    requires
        worker_wf(w),
        0 <= k < w.jobs.len(),
        w.jobs[k].procs.len() == 2,
        w.jobs[k].final_pid == w.jobs[k].procs[1].pid,
        w.fg == Some(w.jobs[k].pgid),
    ensures
        ({
            let a = w.jobs[k].procs[0].pid as int;
            let b = w.jobs[k].procs[1].pid as int;
            let r1 = exited_step(w, a, sa);
            let r2 = exited_step(r1.0, b, sb);
            &&& r1.1.reply is None && !r1.1.restore_terminal
            &&& r2.1.reply == Some(Reply::Continue(sb)) && r2.1.restore_terminal
            &&& r2.0.exit_value == sb as int
            &&& r2.0.fg is None
            &&& !jobs_track_pgid(r2.0.jobs, w.jobs[k].pgid as int)
        }),
        ({
            let a = w.jobs[k].procs[0].pid as int;
            let b = w.jobs[k].procs[1].pid as int;
            let r1 = exited_step(w, b, sb);
            let r2 = exited_step(r1.0, a, sa);
            &&& r1.1.reply is None && !r1.1.restore_terminal
            &&& r2.1.reply == Some(Reply::Continue(sb)) && r2.1.restore_terminal
            &&& r2.0.exit_value == sb as int
            &&& r2.0.fg is None
            &&& !jobs_track_pgid(r2.0.jobs, w.jobs[k].pgid as int)
        }),
{
    let j = w.jobs[k];
    let a = j.procs[0].pid as int;
    let b = j.procs[1].pid as int;
    assert(job_wf(j));
    assert(a != b);
    lemma_pipeline_one_order(w, k, a, 0, sa, b, 1, sb);
    lemma_pipeline_one_order(w, k, b, 1, sb, a, 0, sa);
}

/// One reap order of the two-stage law: the member at `pf` is reaped first,
/// the member at `ps` second; the reply carries the job's final-stage code.
proof fn lemma_pipeline_one_order(
    w: WorkerModel,
    k: int,
    f: int,
    pf: int,
    sf: i32,
    s: int,
    ps: int,
    ss: i32,
)
    requires
        worker_wf(w),
        0 <= k < w.jobs.len(),
        w.jobs[k].procs.len() == 2,
        0 <= pf < 2 && 0 <= ps < 2 && pf != ps,
        w.jobs[k].procs[pf].pid == f,
        w.jobs[k].procs[ps].pid == s,
        w.fg == Some(w.jobs[k].pgid),
    ensures
        ({
            let fin = if w.jobs[k].final_pid == f {
                sf as int
            } else if w.jobs[k].final_pid == s {
                ss as int
            } else {
                w.jobs[k].final_status
            };
            let r1 = exited_step(w, f, sf);
            let r2 = exited_step(r1.0, s, ss);
            &&& r1.1.reply is None && !r1.1.restore_terminal
            &&& r2.1.reply == Some(Reply::Continue(fin as i32)) && r2.1.restore_terminal
            &&& r2.0.exit_value == fin
            &&& r2.0.fg is None
            &&& !jobs_track_pgid(r2.0.jobs, w.jobs[k].pgid as int)
        }),
{
    let j = w.jobs[k];
    assert(job_wf(j));
    assert(f != s);
    assert(pid_in_job(j, f));
    assert(jobs_track_pid(w.jobs, f));
    lemma_pid_job_at(w.jobs, f, k);
    lemma_reap_jobs_at(w.jobs, f, sf, k, pf);
    let j1 = reap_job(j, f, sf);
    assert(j1.procs == j.procs.remove(pf));
    assert(j1.procs =~= seq![j.procs[ps]]);
    let jobs1 = w.jobs.update(k, j1);
    assert(reap_jobs(w.jobs, f, sf) == jobs1);
    assert(jobs_track_pgid(jobs1, j.pgid)) by {
        assert(jobs1[k].pgid == j.pgid);
    }
    let r1 = exited_step(w, f, sf);
    assert(r1.0 =~~= (WorkerModel { jobs: jobs1, ..w }));
    lemma_jobs_wf_shrink(w.jobs, k, pf, j1);
    assert(pid_in_job(j1, s)) by {
        assert(j1.procs[0].pid == s);
    }
    assert(jobs_track_pid(jobs1, s)) by {
        assert(pid_in_job(jobs1[k], s));
    }
    lemma_pid_job_at(jobs1, s, k);
    lemma_reap_jobs_at(jobs1, s, ss, k, 0);
    assert(reap_jobs(jobs1, s, ss) == jobs1.remove(k));
    let gone = jobs1.remove(k);
    assert(!jobs_track_pgid(gone, j.pgid as int)) by {
        assert forall|i: int| 0 <= i < gone.len() implies
            (#[trigger] gone[i].pgid) != j.pgid by {
            if i < k {
                assert(gone[i] == jobs1[i]);
                assert(jobs1[i] == w.jobs[i]);
            } else {
                assert(gone[i] == jobs1[i + 1]);
                assert(jobs1[i + 1] == w.jobs[i + 1]);
            }
        }
    }
    let fin2 = reap_job(j1, s, ss).final_status;
    assert(j1.final_pid == j.final_pid);
    assert(fin2 == (if j.final_pid == f {
        sf as int
    } else if j.final_pid == s {
        ss as int
    } else {
        j.final_status
    }));
    let r2 = exited_step(r1.0, s, ss);
    assert(r2.1.restore_terminal && r2.1.reply == Some(Reply::Continue(fin2 as i32)));
    assert(r2.0.exit_value == fin2);
    assert(r2.0.fg is None);
}

/// The exit-code space folds death by signal `sig` into `128 + sig`, the
/// usual shell convention for a killed child.
pub fn signal_exit_code(sig: i32) -> (r: i32)
    requires
        0 <= sig <= 128,
    ensures
        r == 128 + sig,
{
    128 + sig
}

impl Worker {
    /// Every member of the job at index `k` is stopped?
    fn job_stopped_at(&self, k: usize) -> (r: bool)
        requires
            k < self.jobs@.len(),
        ensures
            r == job_all_stopped(self@.jobs[k as int]),
    {
        let job = &self.jobs[k];
        let mut p: usize = 0;
        while p < job.procs.len()
            invariant
                p <= job.procs@.len(),
                job == self.jobs@[k as int],
                k < self.jobs@.len(),
                forall|q: int| 0 <= q < p ==> (#[trigger] job.procs@[q]).state == ProcState::Stop,
            decreases job.procs@.len() - p,
        {
            match job.procs[p].state {
                ProcState::Stop => {},
                ProcState::Run => {
                    return false;
                },
            }
            p += 1;
        }
        true
    }

    /// Reconcile one child exit reported by the non-blocking wait poll.
    pub fn on_child_exited(&mut self, pid: i32, status: i32) -> (r: ReapOutcome)
        requires
            old(self).wf(),
        ensures
            final(self).wf(),
            (final(self)@, r) == exited_step(old(self)@, pid as int, status),
            !jobs_track_pid(final(self)@.jobs, pid as int),
    {
        proof {
            lemma_reap_jobs_no_pid(old(self)@.jobs, pid as int, status);
        }
        match self.locate_pid(pid) {
            None => {
                proof {
                    lemma_reap_jobs_untracked_wrap(self@, pid as int, status);
                }
                ReapOutcome { restore_terminal: false, reply: None }
            },
            Some((k, p)) => {
                let ghost pre = self@;
                let g = self.jobs[k].pgid;
                let fin = if self.jobs[k].final_pid == pid {
                    status
                } else {
                    self.jobs[k].final_status
                };
                proof {
                    lemma_pid_job_at(pre.jobs, pid as int, k as int);
                    lemma_reap_jobs_at(pre.jobs, pid as int, status, k as int, p as int);
                    assert(fin as int == reap_job(pre.jobs[k as int], pid as int, status).final_status);
                }
                let last_member = self.jobs[k].procs.len() == 1;
                if last_member {
                    self.jobs.remove(k);
                    proof {
                        assert(self@.jobs =~= pre.jobs.remove(k as int));
                        lemma_jobs_wf_remove(pre.jobs, k as int);
                        assert(!jobs_track_pgid(self@.jobs, g as int)) by {
                            assert forall|i: int| 0 <= i < self@.jobs.len() implies
                                (#[trigger] self@.jobs[i].pgid) != g as int by {
                                if i < k as int {
                                    assert(self@.jobs[i] == pre.jobs[i]);
                                } else {
                                    assert(self@.jobs[i] == pre.jobs[i + 1]);
                                }
                            }
                        }
                        assert forall|x: int| jobs_track_pgid(pre.jobs, x) && x != g as int
                            implies jobs_track_pgid(self@.jobs, x) by {
                            let m = choose|m: int|
                                0 <= m < pre.jobs.len() && (#[trigger] pre.jobs[m].pgid) == x;
                            if m < k as int {
                                assert(self@.jobs[m].pgid == x);
                            } else {
                                assert(m != k as int);
                                assert(self@.jobs[m - 1] == pre.jobs[m]);
                                assert(self@.jobs[m - 1].pgid == x);
                            }
                        }
                        assert forall|i: int| 0 <= i < self@.jobs.len() implies
                            jobs_track_pgid(pre.jobs, #[trigger] self@.jobs[i].pgid) by {
                            if i < k as int {
                                assert(pre.jobs[i].pgid == self@.jobs[i].pgid);
                            } else {
                                assert(pre.jobs[i + 1].pgid == self@.jobs[i].pgid);
                            }
                        }
                    }
                } else {
                    let mut job = self.jobs.remove(k);
                    job.procs.remove(p);
                    job.final_status = fin;
                    self.jobs.insert(k, job);
                    proof {
                        assert(self@.jobs =~~= pre.jobs.update(
                            k as int,
                            reap_job(pre.jobs[k as int], pid as int, status),
                        ));
                        lemma_jobs_wf_shrink(
                            pre.jobs,
                            k as int,
                            p as int,
                            reap_job(pre.jobs[k as int], pid as int, status),
                        );
                        assert(jobs_track_pgid(self@.jobs, g as int)) by {
                            assert(self@.jobs[k as int].pgid == g as int);
                        }
                        assert forall|x: int| jobs_track_pgid(pre.jobs, x) && x != g as int
                            implies jobs_track_pgid(self@.jobs, x) by {
                            let m = choose|m: int|
                                0 <= m < pre.jobs.len() && (#[trigger] pre.jobs[m].pgid) == x;
                            assert(self@.jobs[m].pgid == x);
                        }
                        assert forall|i: int| 0 <= i < self@.jobs.len() implies
                            jobs_track_pgid(pre.jobs, #[trigger] self@.jobs[i].pgid) by {
                            assert(pre.jobs[i].pgid == self@.jobs[i].pgid);
                        }
                    }
                }
                let fg_was_here = match self.fg {
                    Some(f) => f == g,
                    None => false,
                };
                if fg_was_here && last_member {
                    self.fg = None;
                    self.exit_value = fin;
                    proof {
                        lemma_fg_after_reap(pre, self@, pid as int, g as int);
                        assert(self@ =~~= exited_step(pre, pid as int, status).0);
                    }
                    ReapOutcome { restore_terminal: true, reply: Some(Reply::Continue(fin)) }
                } else {
                    proof {
                        lemma_fg_after_reap(pre, self@, pid as int, g as int);
                        assert(self@ =~~= exited_step(pre, pid as int, status).0);
                    }
                    ReapOutcome { restore_terminal: false, reply: None }
                }
            },
        }
    }
}

/// Marking one member's state touches only the entry for `pid` in the job
/// that tracks it, and keeps the table well formed.
proof fn lemma_set_jobs_state_at(jobs: Seq<JobModel>, pid: int, st: ProcState, k: int, p: int)
    requires
        jobs_wf(jobs),
        0 <= k < jobs.len(),
        0 <= p < jobs[k].procs.len(),
        jobs[k].procs[p].pid == pid,
    ensures
        set_jobs_state(jobs, pid, st) == jobs.update(
            k,
            JobModel {
                procs: jobs[k].procs.update(
                    p,
                    ProcEntry { pid: jobs[k].procs[p].pid, state: st },
                ),
                ..jobs[k]
            },
        ),
        jobs_wf(set_jobs_state(jobs, pid, st)),
        forall|i: int| 0 <= i < jobs.len()
            ==> (#[trigger] set_jobs_state(jobs, pid, st)[i]).pgid == jobs[i].pgid,
    decreases jobs.len(),
{
    let s = set_jobs_state(jobs, pid, st);
    let j2 = JobModel {
        procs: jobs[k].procs.update(p, ProcEntry { pid: jobs[k].procs[p].pid, state: st }),
        ..jobs[k]
    };
    assert(pid_in_job(jobs[k], pid));
    assert forall|i: int| 0 <= i < jobs.len() && i != k implies
        (#[trigger] s[i]) == jobs[i] by {
        if i < k {
            assert(procs_disjoint(jobs[i], jobs[k]));
        } else {
            assert(procs_disjoint(jobs[k], jobs[i]));
        }
        assert(!pid_in_job(jobs[i], pid));
        assert forall|q: int| 0 <= q < jobs[i].procs.len() implies
            (#[trigger] jobs[i].procs[q]).pid != pid by {}
        assert(set_entry_state(jobs[i].procs, pid, st) =~= jobs[i].procs);
        assert(s[i] =~~= jobs[i]);
    }
    assert(s[k] =~~= j2) by {
        assert forall|q: int| 0 <= q < jobs[k].procs.len() && q != p implies
            (#[trigger] jobs[k].procs[q]).pid != pid by {}
        assert(set_entry_state(jobs[k].procs, pid, st) =~= j2.procs);
    }
    assert(s =~~= jobs.update(k, j2));
    assert forall|i: int| 0 <= i < jobs.len() implies job_wf(#[trigger] s[i]) by {
        if i == k {
            assert(job_wf(jobs[k]));
            assert forall|a: int, b: int| 0 <= a < b < j2.procs.len() implies
                j2.procs[a].pid != j2.procs[b].pid by {
                assert(j2.procs[a].pid == jobs[k].procs[a].pid);
                assert(j2.procs[b].pid == jobs[k].procs[b].pid);
            }
            assert forall|a: int| 0 <= a < j2.procs.len() implies
                0 < #[trigger] j2.procs[a].pid by {
                assert(j2.procs[a].pid == jobs[k].procs[a].pid);
            }
        }
    }
    assert forall|x: int| #[trigger] pid_in_job(s[k], x) implies pid_in_job(jobs[k], x) by {
        let q = choose|q: int| 0 <= q < s[k].procs.len() && s[k].procs[q].pid == x;
        assert(jobs[k].procs[q].pid == x);
    }
    assert forall|i: int, m: int| 0 <= i < m < s.len() implies
        s[i].id < s[m].id && s[i].pgid != s[m].pgid
            && procs_disjoint(#[trigger] s[i], #[trigger] s[m]) by {
        assert(procs_disjoint(jobs[i], jobs[m]));
        if i == k || m == k {
            assert forall|x: int| !(#[trigger] pid_in_job(s[i], x) && pid_in_job(s[m], x)) by {
                if pid_in_job(s[i], x) && pid_in_job(s[m], x) {
                    assert(pid_in_job(jobs[i], x) && pid_in_job(jobs[m], x));
                }
            }
        }
    }
}

impl Worker {
    /// Reconcile one reported stop of a child process.
    pub fn on_child_stopped(&mut self, pid: i32) -> (r: ReapOutcome)
        requires
            old(self).wf(),
        ensures
            final(self).wf(),
            (final(self)@, r) == stopped_step(old(self)@, pid as int),
    {
        match self.locate_pid(pid) {
            None => ReapOutcome { restore_terminal: false, reply: None },
            Some((k, p)) => {
                let ghost pre = self@;
                let g = self.jobs[k].pgid;
                proof {
                    lemma_pid_job_at(pre.jobs, pid as int, k as int);
                    lemma_set_jobs_state_at(pre.jobs, pid as int, ProcState::Stop, k as int, p as int);
                }
                let mut job = self.jobs.remove(k);
                let pd = job.procs[p].pid;
                job.procs[p] = ProcEntry { pid: pd, state: ProcState::Stop };
                self.jobs.insert(k, job);
                proof {
                    assert(self@.jobs =~~= set_jobs_state(pre.jobs, pid as int, ProcState::Stop));
                    assert forall|i: int| 0 <= i < self@.jobs.len() implies
                        (#[trigger] self@.jobs[i].pgid) == pre.jobs[i].pgid by {}
                }
                let fg_here = match self.fg {
                    Some(f) => f == g,
                    None => false,
                };
                if fg_here && self.job_stopped_at(k) {
                    proof {
                        assert(group_all_stopped(self@.jobs, g as int)) by {
                            assert forall|i: int|
                                0 <= i < self@.jobs.len() && (#[trigger] self@.jobs[i]).pgid == g as int
                                implies job_all_stopped(self@.jobs[i]) by {
                                if i != k as int {
                                    assert(pre.jobs[i].pgid != pre.jobs[k as int].pgid);
                                }
                            }
                        }
                    }
                    self.fg = None;
                    let code = self.exit_value;
                    proof {
                        assert(self@ =~~= stopped_step(pre, pid as int).0);
                    }
                    ReapOutcome { restore_terminal: true, reply: Some(Reply::Continue(code)) }
                } else {
                    proof {
                        if fg_here {
                            assert(self@.jobs[k as int].pgid == g as int);
                            assert(!group_all_stopped(self@.jobs, g as int));
                        }
                        match self.fg {
                            Some(f) => {
                                assert(jobs_track_pgid(pre.jobs, f as int));
                                let m = choose|m: int|
                                    0 <= m < pre.jobs.len()
                                        && (#[trigger] pre.jobs[m].pgid) == f as int;
                                assert(self@.jobs[m].pgid == f as int);
                            },
                            None => {},
                        }
                        assert(self@ =~~= stopped_step(pre, pid as int).0);
                    }
                    ReapOutcome { restore_terminal: false, reply: None }
                }
            },
        }
    }

    /// Reconcile one reported continue of a child process.
    pub fn on_child_continued(&mut self, pid: i32)
        requires
            old(self).wf(),
        ensures
            final(self).wf(),
            final(self)@ == continued_step(old(self)@, pid as int),
    {
        match self.locate_pid(pid) {
            None => {},
            Some((k, p)) => {
                let ghost pre = self@;
                proof {
                    lemma_set_jobs_state_at(pre.jobs, pid as int, ProcState::Run, k as int, p as int);
                }
                let mut job = self.jobs.remove(k);
                let pd = job.procs[p].pid;
                job.procs[p] = ProcEntry { pid: pd, state: ProcState::Run };
                self.jobs.insert(k, job);
                proof {
                    assert(self@.jobs =~~= set_jobs_state(pre.jobs, pid as int, ProcState::Run));
                    match self.fg {
                        Some(f) => {
                            assert(jobs_track_pgid(pre.jobs, f as int));
                            let m = choose|m: int|
                                0 <= m < pre.jobs.len()
                                    && (#[trigger] pre.jobs[m].pgid) == f as int;
                            assert(self@.jobs[m].pgid == f as int);
                        },
                        None => {},
                    }
                    assert(self@ =~~= continued_step(pre, pid as int));
                }
            },
        }
    }
}

/// What the worker asks of its caller after it has recorded a freshly
/// spawned pipeline: transfer terminal control to the new group (foreground
/// spawn), and/or reply immediately (background spawn).
pub struct SpawnOutcome {
    pub claim_terminal: bool,
    pub reply: Option<Reply>,
}

/// The lowest id not smaller than `n` that is unused, walking a table whose
/// prefix carries the consecutive ids `n`, `n + 1`, ...
pub open spec fn min_free_from(jobs: Seq<JobModel>, n: int) -> int
    decreases jobs.len(),
{
    if jobs.len() == 0 || jobs[0].id != n {
        n
    } else {
        min_free_from(jobs.subrange(1, jobs.len() as int), n + 1)
    }
}

/// The lowest currently-unused job id, starting at 1: ids are reused as soon
/// as they free up.
pub open spec fn min_free_id(jobs: Seq<JobModel>) -> int {
    min_free_from(jobs, 1)
}

/// The position at which a job with id `id` belongs in the id-sorted table.
pub open spec fn id_insert_index(jobs: Seq<JobModel>, id: int) -> int
    decreases jobs.len(),
{
    if jobs.len() == 0 || id < jobs[0].id {
        0
    } else {
        1 + id_insert_index(jobs.subrange(1, jobs.len() as int), id)
    }
}

/// Member entries for a freshly spawned pipeline: every pid starts running.
pub open spec fn pids_entries(pids: Seq<i32>) -> Seq<ProcEntry> {
    pids.map_values(|p: i32| ProcEntry { pid: p, state: ProcState::Run })
}

/// Effect of recording a freshly spawned pipeline: a job under the lowest
/// unused id joins the table in id order, with every member running. A
/// foreground spawn takes the terminal and defers its reply; a background
/// spawn leaves the terminal alone and replies at once with the last exit
/// status.
pub open spec fn register_step(
    w: WorkerModel,
    pgid: int,
    pids: Seq<i32>,
    cmd: Seq<char>,
    background: bool,
) -> (WorkerModel, SpawnOutcome) {
    let id = min_free_id(w.jobs);
    let j = JobModel {
        id,
        pgid,
        cmd,
        procs: pids_entries(pids),
        final_pid: pids.last() as int,
        final_status: 0,
    };
    let jobs2 = w.jobs.insert(id_insert_index(w.jobs, id), j);
    if background {
        (
            WorkerModel { jobs: jobs2, ..w },
            SpawnOutcome {
                claim_terminal: false,
                reply: Some(Reply::Continue(w.exit_value as i32)),
            },
        )
    } else {
        (
            WorkerModel { jobs: jobs2, fg: Some(pgid), ..w },
            SpawnOutcome { claim_terminal: true, reply: None },
        )
    }
}

/// Characterization of the id allocation walk: if the first `i` jobs carry
/// the consecutive ids from `n` and the next job (if any) does not continue
/// the run, then `n + i` is the lowest free id at or above `n` and `i` its
/// sorted position.
proof fn lemma_alloc_from(jobs: Seq<JobModel>, n: int, i: int)
    requires
        forall|a: int, b: int| 0 <= a < b < jobs.len() ==> jobs[a].id < jobs[b].id,
        forall|k: int| 0 <= k < jobs.len() ==> n <= (#[trigger] jobs[k]).id,
        0 <= i <= jobs.len(),
        forall|k: int| 0 <= k < i ==> (#[trigger] jobs[k]).id == n + k,
        i < jobs.len() ==> jobs[i as int].id != n + i,
    ensures
        min_free_from(jobs, n) == n + i,
        id_insert_index(jobs, n + i) == i,
        forall|k: int| 0 <= k < jobs.len() ==> (#[trigger] jobs[k]).id != n + i,
        forall|k: int| i <= k < jobs.len() ==> (#[trigger] jobs[k]).id > n + i,
    decreases jobs.len(),
{
    if jobs.len() == 0 {
    } else if i == 0 {
        assert(jobs[0].id != n);
        assert(jobs[0].id > n);
        assert forall|k: int| 0 <= k < jobs.len() implies (#[trigger] jobs[k]).id > n by {
            if k > 0 {
                assert(jobs[0].id < jobs[k].id);
            }
        }
    } else {
        let sub = jobs.subrange(1, jobs.len() as int);
        assert(jobs[0].id == n);
        assert forall|a: int, b: int| 0 <= a < b < sub.len() implies sub[a].id < sub[b].id by {
            assert(sub[a] == jobs[a + 1]);
            assert(sub[b] == jobs[b + 1]);
        }
        assert forall|k: int| 0 <= k < sub.len() implies n + 1 <= (#[trigger] sub[k]).id by {
            assert(sub[k] == jobs[k + 1]);
            assert(jobs[0].id < jobs[k + 1].id);
        }
        assert forall|k: int| 0 <= k < i - 1 implies (#[trigger] sub[k]).id == (n + 1) + k by {
            assert(sub[k] == jobs[k + 1]);
        }
        if i - 1 < sub.len() {
            assert(sub[i - 1] == jobs[i as int]);
        }
        lemma_alloc_from(sub, n + 1, i - 1);
        assert forall|k: int| 0 <= k < jobs.len() implies (#[trigger] jobs[k]).id != n + i by {
            if k > 0 {
                assert(sub[k - 1] == jobs[k]);
            }
        }
        assert forall|k: int| i <= k < jobs.len() implies (#[trigger] jobs[k]).id > n + i by {
            assert(sub[k - 1] == jobs[k]);
        }
    }
}

/// The id allocation walk really yields the lowest unused id at or above
/// `n`, over a table whose ids are sorted and at least `n`.
pub proof fn lemma_min_free_from_props(jobs: Seq<JobModel>, n: int)
    requires
        forall|a: int, b: int| 0 <= a < b < jobs.len() ==> jobs[a].id < jobs[b].id,
        forall|k: int| 0 <= k < jobs.len() ==> n <= (#[trigger] jobs[k]).id,
    ensures
        n <= min_free_from(jobs, n),
        !jobs_track_id(jobs, min_free_from(jobs, n)),
        forall|k: int| n <= k < min_free_from(jobs, n) ==> jobs_track_id(jobs, k),
    decreases jobs.len(),
{
    if jobs.len() == 0 {
    } else if jobs[0].id == n {
        let sub = jobs.subrange(1, jobs.len() as int);
        assert forall|a: int, b: int| 0 <= a < b < sub.len() implies sub[a].id < sub[b].id by {
            assert(sub[a] == jobs[a + 1]);
            assert(sub[b] == jobs[b + 1]);
        }
        assert forall|k: int| 0 <= k < sub.len() implies n + 1 <= (#[trigger] sub[k]).id by {
            assert(sub[k] == jobs[k + 1]);
            assert(jobs[0].id < jobs[k + 1].id);
        }
        lemma_min_free_from_props(sub, n + 1);
        let m = min_free_from(jobs, n);
        assert(m == min_free_from(sub, n + 1));
        assert forall|k: int| 0 <= k < jobs.len() implies (#[trigger] jobs[k]).id != m by {
            if k > 0 {
                assert(sub[k - 1] == jobs[k]);
                assert(!jobs_track_id(sub, m));
            }
        }
        assert forall|k: int| n <= k < m implies jobs_track_id(jobs, k) by {
            if k == n {
                assert(jobs[0].id == k);
            } else {
                assert(jobs_track_id(sub, k));
                let w = choose|w: int| 0 <= w < sub.len() && (#[trigger] sub[w]).id == k;
                assert(jobs[w + 1].id == k);
            }
        }
    } else {
        assert forall|k: int| 0 <= k < jobs.len() implies (#[trigger] jobs[k]).id != n by {
            if k > 0 {
                assert(jobs[0].id < jobs[k].id);
            }
        }
    }
}

/// The sorted position of any id lies inside the table.
pub proof fn lemma_id_insert_index_bounds(jobs: Seq<JobModel>, id: int)
    ensures
        0 <= id_insert_index(jobs, id) <= jobs.len(),
    decreases jobs.len(),
{
    if jobs.len() > 0 && !(id < jobs[0].id) {
        lemma_id_insert_index_bounds(jobs.subrange(1, jobs.len() as int), id);
    }
}

impl Worker {
    /// Number of tracked jobs.
    pub fn job_count(&self) -> (r: usize)
        ensures
            r == self@.jobs.len(),
    {
        self.jobs.len()
    }

    /// Record a freshly spawned pipeline: its group id, the pids of all its
    /// stages (every one running), and the command text, under the lowest
    /// unused job id. The pids arrive in stage order, so the last one is the
    /// pipeline's final stage — the member whose exit code the job reports.
    /// A foreground spawn sets the foreground reference and defers the
    /// controller's reply; a background one replies at once.
    ///
    /// The pids come straight from fork, so they are fresh: positive,
    /// distinct, and tracked nowhere yet; the group id is the first child's
    /// pid. The caller holds no foreground job while it dispatches a command.
    pub fn register_job(
        &mut self,
        pgid: i32,
        pids: &Vec<i32>,
        cmd: String,
        background: bool,
    ) -> (r: SpawnOutcome)
        requires
            old(self).wf(),
            old(self)@.fg is None,
            old(self)@.jobs.len() < 0x7fff_ffff,
            0 < pgid,
            pgid as int != old(self)@.shell_pgid,
            !jobs_track_pgid(old(self)@.jobs, pgid as int),
            1 <= pids@.len(),
            forall|q: int| 0 <= q < pids@.len() ==> 0 < #[trigger] pids@[q],
            forall|a: int, b: int| 0 <= a < b < pids@.len() ==> pids@[a] != pids@[b],
            forall|q: int| 0 <= q < pids@.len()
                ==> !jobs_track_pid(old(self)@.jobs, (#[trigger] pids@[q]) as int),
        ensures
            final(self).wf(),
            (final(self)@, r) == register_step(old(self)@, pgid as int, pids@, cmd@, background),
    {
        let ghost pre = self@;
        proof {
            assert forall|k: int| 0 <= k < pre.jobs.len() implies 1 <= (#[trigger] pre.jobs[k]).id by {
                assert(job_wf(pre.jobs[k]));
            }
        }
        let mut i: usize = 0;
        while i < self.jobs.len() && self.jobs[i].id == (i as u64) + 1
            invariant
                self@ == pre,
                i <= pre.jobs.len(),
                pre.jobs.len() < 0x7fff_ffff,
                forall|k: int| 0 <= k < i ==> (#[trigger] pre.jobs[k]).id == 1 + k,
            decreases pre.jobs.len() - i,
        {
            i += 1;
        }
        let id: u64 = (i as u64) + 1;
        proof {
            lemma_alloc_from(pre.jobs, 1, i as int);
        }
        let mut procs: Vec<ProcEntry> = Vec::new();
        let mut q: usize = 0;
        while q < pids.len()
            invariant
                q <= pids@.len(),
                procs@ == pids_entries(pids@.subrange(0, q as int)),
            decreases pids@.len() - q,
        {
            procs.push(ProcEntry { pid: pids[q], state: ProcState::Run });
            proof {
                assert(pids@.subrange(0, q + 1 as int).drop_last() =~= pids@.subrange(0, q as int));
                assert(procs@ =~= pids_entries(pids@.subrange(0, q + 1 as int)));
            }
            q += 1;
        }
        proof {
            assert(pids@.subrange(0, pids@.len() as int) =~= pids@);
        }
        let job = Job {
            id,
            pgid,
            cmd,
            procs,
            final_pid: pids[pids.len() - 1],
            final_status: 0,
        };
        self.jobs.insert(i, job);
        proof {
            let jm = job@;
            let jobs2 = pre.jobs.insert(i as int, jm);
            assert(self@.jobs =~~= jobs2);
            assert forall|q2: int| 0 <= q2 < jm.procs.len() implies
                (#[trigger] jm.procs[q2]) == ProcEntry { pid: pids@[q2], state: ProcState::Run } by {}
            assert(job_wf(jm));
            assert forall|m: int| 0 <= m < jobs2.len() implies job_wf(#[trigger] jobs2[m]) by {
                if m < i as int {
                    assert(jobs2[m] == pre.jobs[m]);
                } else if m > i as int {
                    assert(jobs2[m] == pre.jobs[m - 1]);
                }
            }
            assert forall|x: int| #[trigger] pid_in_job(jm, x) implies
                !jobs_track_pid(pre.jobs, x) by {
                let q2 = choose|q2: int| 0 <= q2 < jm.procs.len() && jm.procs[q2].pid == x;
                assert(pids@[q2] == x);
            }
            assert forall|a: int, b: int| 0 <= a < b < jobs2.len() implies
                jobs2[a].id < jobs2[b].id && jobs2[a].pgid != jobs2[b].pgid
                    && procs_disjoint(#[trigger] jobs2[a], #[trigger] jobs2[b]) by {
                let oa = if a < i as int { a } else { a - 1 };
                let ob = if b < i as int { b } else { b - 1 };
                if a == i as int {
                    assert(jobs2[b] == pre.jobs[ob]);
                    assert(pre.jobs[ob].id > id);
                    assert(jobs_track_pgid(pre.jobs, pre.jobs[ob].pgid));
                    assert forall|x: int| !(#[trigger] pid_in_job(jobs2[a], x) && pid_in_job(jobs2[b], x)) by {
                        if pid_in_job(jm, x) {
                            assert(!jobs_track_pid(pre.jobs, x));
                            assert(!pid_in_job(pre.jobs[ob], x));
                        }
                    }
                } else if b == i as int {
                    assert(jobs2[a] == pre.jobs[oa]);
                    assert(pre.jobs[oa].id == 1 + oa);
                    assert(jobs_track_pgid(pre.jobs, pre.jobs[oa].pgid));
                    assert forall|x: int| !(#[trigger] pid_in_job(jobs2[a], x) && pid_in_job(jobs2[b], x)) by {
                        if pid_in_job(jm, x) {
                            assert(!jobs_track_pid(pre.jobs, x));
                            assert(!pid_in_job(pre.jobs[oa], x));
                        }
                    }
                } else {
                    assert(jobs2[a] == pre.jobs[oa]);
                    assert(jobs2[b] == pre.jobs[ob]);
                    assert(procs_disjoint(pre.jobs[oa], pre.jobs[ob]));
                }
            }
            assert forall|m: int| 0 <= m < jobs2.len() implies
                (#[trigger] jobs2[m].pgid) != pre.shell_pgid by {
                if m < i as int {
                    assert(jobs2[m] == pre.jobs[m]);
                } else if m > i as int {
                    assert(jobs2[m] == pre.jobs[m - 1]);
                }
            }
        }
        if background {
            proof {
                assert(self@ =~~= register_step(pre, pgid as int, pids@, cmd@, background).0);
            }
            SpawnOutcome { claim_terminal: false, reply: Some(Reply::Continue(self.exit_value)) }
        } else {
            self.fg = Some(pgid);
            proof {
                assert(self@.jobs[i as int].pgid == pgid as int);
                assert(self@ =~~= register_step(pre, pgid as int, pids@, cmd@, background).0);
            }
            SpawnOutcome { claim_terminal: true, reply: None }
        }
    }
}

/// Wrapper facts used by the untracked branch of the exit path.
proof fn lemma_reap_jobs_untracked_wrap(w: WorkerModel, pid: int, status: i32)
    requires
        worker_wf(w),
        !jobs_track_pid(w.jobs, pid),
    ensures
        reap_jobs(w.jobs, pid, status) == w.jobs,
{
    assert forall|i: int| 0 <= i < w.jobs.len() implies
        1 <= (#[trigger] w.jobs[i]).procs.len() by {
        assert(job_wf(w.jobs[i]));
    }
    lemma_reap_jobs_untracked(w.jobs, pid, status);
}

/// The chosen job of a tracked pid is the one found by search.
proof fn lemma_pid_job_at(jobs: Seq<JobModel>, pid: int, k: int)
    requires
        jobs_wf(jobs),
        0 <= k < jobs.len(),
        pid_in_job(jobs[k], pid),
    ensures
        pid_job(jobs, pid) == jobs[k],
{
    let i = choose|i: int| 0 <= i < jobs.len() && #[trigger] pid_in_job(jobs[i], pid);
    if i != k {
        if i < k {
            assert(procs_disjoint(jobs[i], jobs[k]));
        } else {
            assert(procs_disjoint(jobs[k], jobs[i]));
        }
    }
}

proof fn lemma_jobs_wf_remove(jobs: Seq<JobModel>, k: int)
    requires
        jobs_wf(jobs),
        0 <= k < jobs.len(),
    ensures
        jobs_wf(jobs.remove(k)),
{
    let r = jobs.remove(k);
    assert forall|i: int| 0 <= i < r.len() implies job_wf(#[trigger] r[i]) by {
        if i < k {
            assert(r[i] == jobs[i]);
        } else {
            assert(r[i] == jobs[i + 1]);
        }
    }
    assert forall|i: int, m: int| 0 <= i < m < r.len() implies
        r[i].id < r[m].id && r[i].pgid != r[m].pgid
            && procs_disjoint(#[trigger] r[i], #[trigger] r[m]) by {
        let oi = if i < k { i } else { i + 1 };
        let om = if m < k { m } else { m + 1 };
        assert(r[i] == jobs[oi]);
        assert(r[m] == jobs[om]);
        assert(procs_disjoint(jobs[oi], jobs[om]));
    }
}

/// Removing one member of the job at `k` (not its last) keeps the table well
/// formed, whatever the replacement job's latched status.
proof fn lemma_jobs_wf_shrink(jobs: Seq<JobModel>, k: int, p: int, j2: JobModel)
    requires
        jobs_wf(jobs),
        0 <= k < jobs.len(),
        0 <= p < jobs[k].procs.len(),
        jobs[k].procs.len() > 1,
        j2.id == jobs[k].id,
        j2.pgid == jobs[k].pgid,
        j2.procs == jobs[k].procs.remove(p),
    ensures
        jobs_wf(jobs.update(k, j2)),
{
    let r = jobs.update(k, j2);
    assert forall|q: int| 0 <= q < j2.procs.len() implies
        (#[trigger] j2.procs[q]) == (if q < p { jobs[k].procs[q] } else { jobs[k].procs[q + 1] }) by {}
    assert(job_wf(jobs[k]));
    assert(job_wf(j2)) by {
        assert forall|a: int, b: int| 0 <= a < b < j2.procs.len() implies
            j2.procs[a].pid != j2.procs[b].pid by {
            let oa = if a < p { a } else { a + 1 };
            let ob = if b < p { b } else { b + 1 };
            assert(j2.procs[a] == jobs[k].procs[oa]);
            assert(j2.procs[b] == jobs[k].procs[ob]);
        }
        assert forall|a: int| 0 <= a < j2.procs.len() implies 0 < #[trigger] j2.procs[a].pid by {
            let oa = if a < p { a } else { a + 1 };
            assert(j2.procs[a] == jobs[k].procs[oa]);
        }
    }
    assert forall|x: int| #[trigger] pid_in_job(j2, x) implies pid_in_job(jobs[k], x) by {
        let q = choose|q: int| 0 <= q < j2.procs.len() && j2.procs[q].pid == x;
        let oq = if q < p { q } else { q + 1 };
        assert(jobs[k].procs[oq].pid == x);
    }
    assert forall|i: int, m: int| 0 <= i < m < r.len() implies
        r[i].id < r[m].id && r[i].pgid != r[m].pgid
            && procs_disjoint(#[trigger] r[i], #[trigger] r[m]) by {
        assert(procs_disjoint(jobs[i], jobs[m]));
        if i == k || m == k {
            assert forall|x: int| !(#[trigger] pid_in_job(r[i], x) && pid_in_job(r[m], x)) by {
                if pid_in_job(r[i], x) && pid_in_job(r[m], x) {
                    assert(pid_in_job(jobs[i], x) && pid_in_job(jobs[m], x));
                }
            }
        }
    }
}

/// After a reap that may have removed the foreground group, the foreground
/// reference stays valid: either it was this group (and is cleared by the
/// caller) or its job is untouched.
proof fn lemma_fg_after_reap(pre: WorkerModel, post: WorkerModel, pid: int, g: int)
    requires
        worker_wf(pre),
        post.shell_pgid == pre.shell_pgid,
        jobs_wf(post.jobs),
        forall|i: int| 0 <= i < post.jobs.len() ==> jobs_track_pgid(pre.jobs, #[trigger] post.jobs[i].pgid),
        forall|x: int| jobs_track_pgid(pre.jobs, x) && x != g ==> jobs_track_pgid(post.jobs, x),
        match post.fg {
            Some(f) => pre.fg == Some(f) && (f != g || jobs_track_pgid(post.jobs, g)),
            None => true,
        },
    ensures
        worker_wf(post),
{
    assert forall|i: int| 0 <= i < post.jobs.len() implies
        (#[trigger] post.jobs[i].pgid) != post.shell_pgid by {
        let x = post.jobs[i].pgid;
        assert(jobs_track_pgid(pre.jobs, x));
        let m = choose|m: int| 0 <= m < pre.jobs.len() && #[trigger] pre.jobs[m].pgid == x;
        assert(pre.jobs[m].pgid != pre.shell_pgid);
    }
    match post.fg {
        Some(f) => {
            assert(jobs_track_pgid(pre.jobs, f));
            if f != g {
                assert(jobs_track_pgid(post.jobs, f));
            }
        },
        None => {},
    }
}

} // verus!
