//! The global guarantees of the job-control engine, proved once over the
//! transition functions that the worker's methods are specified by.
//!
//! At most one group can hold terminal control at a time by construction:
//! the foreground reference is a single optional pgid, and `terminal_owner`
//! names the group that must be holding the terminal in each state. The
//! lemmas below show that every transition asks its caller for a terminal
//! transfer exactly when that owner changes, and to exactly the new owner:
//! a caller that performs each requested transfer keeps the terminal's real
//! controlling group equal to `terminal_owner` at every instant.

use vstd::prelude::*;
use crate::Reply;
use crate::jobs::ProcState;
use crate::jobs::ReapOutcome;
use crate::jobs::lemma_stopped_step_background;
use crate::jobs::same_job_shape;
use crate::jobs::WorkerModel;
use crate::jobs::exited_step;
use crate::jobs::id_insert_index;
use crate::jobs::jobs_track_id;
use crate::jobs::jobs_track_pid;
use crate::jobs::lemma_id_insert_index_bounds;
use crate::jobs::lemma_min_free_from_props;
use crate::jobs::lemma_reap_jobs_no_pid;
use crate::jobs::min_free_id;
use crate::jobs::register_step;
use crate::jobs::stopped_step;
use crate::jobs::continued_step;
use crate::jobs::terminal_owner;
use crate::jobs::worker_wf;
use crate::numparse::parse_i32_spec;
use crate::parse::parse_spec;
use crate::worker::CmdOutcomeModel;
use crate::worker::job_all_running;
use crate::worker::report_of;
use crate::worker::command_step;

verus! {

/// Job ids are reused: the id a registration hands out is the lowest
/// positive integer no live job carries, every positive integer below it is
/// carried by some live job, and the new job enters the table under it. So
/// the id set stays the minimal gap-free set that allocation can produce.
pub proof fn lemma_job_id_lowest_unused(
    w: WorkerModel,
    pgid: int,
    pids: Seq<i32>,
    cmd: Seq<char>,
    background: bool,
)
    requires
        worker_wf(w),
    ensures
        ({
            let id = min_free_id(w.jobs);
            &&& 1 <= id
            &&& !jobs_track_id(w.jobs, id)
            &&& forall|k: int| 1 <= k < id ==> jobs_track_id(w.jobs, k)
            &&& jobs_track_id(register_step(w, pgid, pids, cmd, background).0.jobs, id)
        }),
{
    assert forall|k: int| 0 <= k < w.jobs.len() implies 1 <= (#[trigger] w.jobs[k]).id by {
        assert(crate::jobs::job_wf(w.jobs[k]));
    }
    lemma_min_free_from_props(w.jobs, 1);
    let id = min_free_id(w.jobs);
    lemma_id_insert_index_bounds(w.jobs, id);
    let idx = id_insert_index(w.jobs, id);
    let w2 = register_step(w, pgid, pids, cmd, background).0;
    assert(w2.jobs[idx].id == id);
}

/// A reaped pid leaves the tables in exactly one removal event: after the
/// event it is tracked nowhere, and a second report of the same pid is a
/// no-op — no table change, no terminal change, no reply.
pub proof fn lemma_reap_exactly_once(w: WorkerModel, pid: int, status: i32)
    requires
        worker_wf(w),
    ensures
        !jobs_track_pid(exited_step(w, pid, status).0.jobs, pid),
        forall|s2: i32|
            exited_step(exited_step(w, pid, status).0, pid, s2) == (
                exited_step(w, pid, status).0,
                ReapOutcome { restore_terminal: false, reply: None },
            ),
{
    lemma_reap_jobs_no_pid(w.jobs, pid, status);
}

/// Terminal control moves in lockstep with the foreground reference: a
/// child exit hands the terminal back to the shell exactly when the outcome
/// says so, and otherwise the owner is unchanged.
pub proof fn lemma_terminal_after_exit(w: WorkerModel, pid: int, status: i32)
    requires
        worker_wf(w),
    ensures
        ({
            let r = exited_step(w, pid, status);
            terminal_owner(r.0) == if r.1.restore_terminal {
                r.0.shell_pgid
            } else {
                terminal_owner(w)
            }
        }),
{
}

/// The same, for a reported stop.
pub proof fn lemma_terminal_after_stop(w: WorkerModel, pid: int)
    requires
        worker_wf(w),
    ensures
        ({
            let r = stopped_step(w, pid);
            terminal_owner(r.0) == if r.1.restore_terminal {
                r.0.shell_pgid
            } else {
                terminal_owner(w)
            }
        }),
{
}

/// A reported continue never moves terminal control.
pub proof fn lemma_terminal_after_continue(w: WorkerModel, pid: int)
    requires
        worker_wf(w),
    ensures
        terminal_owner(continued_step(w, pid)) == terminal_owner(w),
{
}

/// Registration claims the terminal for the new group exactly on a
/// foreground spawn, and otherwise leaves the owner alone.
pub proof fn lemma_terminal_after_register(
    w: WorkerModel,
    pgid: int,
    pids: Seq<i32>,
    cmd: Seq<char>,
    background: bool,
)
    requires
        worker_wf(w),
        w.fg is None,
    ensures
        ({
            let r = register_step(w, pgid, pids, cmd, background);
            terminal_owner(r.0) == if r.1.claim_terminal {
                pgid
            } else {
                terminal_owner(w)
            }
        }),
{
}

/// Command dispatch moves terminal control only through a successful `fg`,
/// and then exactly to the group the outcome names.
pub proof fn lemma_terminal_after_command(w: WorkerModel, line: Seq<char>)
    requires
        worker_wf(w),
    ensures
        ({
            let r = command_step(w, line);
            terminal_owner(r.0) == match r.1 {
                CmdOutcomeModel::Foreground { pgid, .. } => pgid,
                _ => terminal_owner(w),
            }
        }),
{
}

/// The worker state after a batch of stop reports, one per listed pid, in
/// order.
pub open spec fn stop_all(w: WorkerModel, pids: Seq<int>) -> WorkerModel
    decreases pids.len(),
{
    if pids.len() == 0 {
        w
    } else {
        stop_all(stopped_step(w, pids[0]).0, pids.subrange(1, pids.len() as int))
    }
}

/// A background group reported stopped, member by member: while no job is
/// foreground, a batch of stop reports removes nothing, replies nothing and
/// never touches the terminal or the last exit status; every reported pid is
/// marked stopped and every other member keeps its state; and a job all of
/// whose members were reported shows the aggregate state stopped in the
/// `jobs` listing.
pub proof fn lemma_background_batch_stop(w: WorkerModel, pids: Seq<int>)
    requires
        worker_wf(w),
        w.fg is None,
    ensures
        ({
            let w2 = stop_all(w, pids);
            &&& worker_wf(w2)
            &&& w2.fg is None
            &&& w2.exit_value == w.exit_value
            &&& w2.shell_pgid == w.shell_pgid
            &&& w2.jobs.len() == w.jobs.len()
            &&& forall|i: int| 0 <= i < w.jobs.len()
                ==> same_job_shape(#[trigger] w2.jobs[i], w.jobs[i])
            &&& forall|i: int, p: int|
                0 <= i < w.jobs.len() && 0 <= p < w.jobs[i].procs.len()
                    ==> (#[trigger] w2.jobs[i].procs[p]).state == (
                    if pids.contains(w.jobs[i].procs[p].pid as int) {
                        ProcState::Stop
                    } else {
                        w.jobs[i].procs[p].state
                    })
            &&& forall|i: int|
                0 <= i < w.jobs.len() && (forall|p: int|
                    0 <= p < w.jobs[i].procs.len()
                        ==> pids.contains((#[trigger] w.jobs[i].procs[p]).pid as int))
                    ==> report_of(#[trigger] w2.jobs[i]).stopped
        }),
    decreases pids.len(),
{
    let w2 = stop_all(w, pids);
    if pids.len() == 0 {
        assert forall|i: int| 0 <= i < w.jobs.len() implies
            same_job_shape(#[trigger] w2.jobs[i], w.jobs[i]) by {}
        assert forall|i: int|
            0 <= i < w.jobs.len() && (forall|p: int|
                0 <= p < w.jobs[i].procs.len()
                    ==> pids.contains((#[trigger] w.jobs[i].procs[p]).pid as int))
            implies report_of(#[trigger] w2.jobs[i]).stopped by {
            assert(crate::jobs::job_wf(w.jobs[i]));
            assert(pids.contains(w.jobs[i].procs[0].pid as int));
            assert(false);
        }
    } else {
        lemma_stopped_step_background(w, pids[0]);
        let w1 = stopped_step(w, pids[0]).0;
        let tail = pids.subrange(1, pids.len() as int);
        lemma_background_batch_stop(w1, tail);
        assert forall|i: int| 0 <= i < w.jobs.len() implies
            same_job_shape(#[trigger] w2.jobs[i], w.jobs[i]) by {
            assert(same_job_shape(w1.jobs[i], w.jobs[i]));
            assert(same_job_shape(w2.jobs[i], w1.jobs[i]));
        }
        assert forall|i: int, p: int|
            0 <= i < w.jobs.len() && 0 <= p < w.jobs[i].procs.len() implies
            (#[trigger] w2.jobs[i].procs[p]).state == (
            if pids.contains(w.jobs[i].procs[p].pid as int) {
                ProcState::Stop
            } else {
                w.jobs[i].procs[p].state
            }) by {
            let x = w.jobs[i].procs[p].pid as int;
            assert(w1.jobs[i].procs[p].pid == x);
            if pids.contains(x) {
                let m = choose|m: int| 0 <= m < pids.len() && pids[m] == x;
                if m == 0 {
                    assert(w1.jobs[i].procs[p].state == ProcState::Stop);
                    if tail.contains(x) {
                    } else {
                        assert(w2.jobs[i].procs[p].state == w1.jobs[i].procs[p].state);
                    }
                } else {
                    assert(tail[m - 1] == x);
                    assert(tail.contains(x));
                }
            } else {
                assert(x != pids[0]);
                assert(!tail.contains(x)) by {
                    if tail.contains(x) {
                        let m = choose|m: int| 0 <= m < tail.len() && tail[m] == x;
                        assert(pids[m + 1] == x);
                    }
                }
            }
        }
        assert forall|i: int|
            0 <= i < w.jobs.len() && (forall|p: int|
                0 <= p < w.jobs[i].procs.len()
                    ==> pids.contains((#[trigger] w.jobs[i].procs[p]).pid as int))
            implies report_of(#[trigger] w2.jobs[i]).stopped by {
            assert(crate::jobs::job_wf(w.jobs[i]));
            assert(w2.jobs[i].procs[0].state == ProcState::Stop);
            assert(!job_all_running(w2.jobs[i]));
        }
    }
}

/// `exit` never terminates the shell while any job is tracked; with no
/// tracked job it quits, with the given code when the argument is numeric
/// and with the last exit status when there is none.
pub proof fn lemma_exit_behaviour(w: WorkerModel, line: Seq<char>)
    requires
        worker_wf(w),
    ensures
        w.jobs.len() > 0 ==> !(command_step(w, line).1 matches CmdOutcomeModel::Reply {
            reply: Reply::Quit(_),
            ..
        }),
        ({
            match parse_spec(line) {
                Some(sb) => {
                    let stages = sb.0;
                    w.jobs.len() == 0 && stages.len() == 1 && stages[0][0] == "exit"@ ==> {
                        &&& stages[0].len() < 2 ==> command_step(w, line).1
                            == (CmdOutcomeModel::Reply {
                            reply: Reply::Quit(w.exit_value as i32),
                            err: None,
                        })
                        &&& (stages[0].len() >= 2 && parse_i32_spec(stages[0][1]) is Some)
                            ==> command_step(w, line).1 == (CmdOutcomeModel::Reply {
                            reply: Reply::Quit(parse_i32_spec(stages[0][1]).unwrap()),
                            err: None,
                        })
                    }
                },
                None => true,
            }
        }),
{
}

} // verus!
