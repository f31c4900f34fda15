use holly_shell::Reply;
use holly_shell::jobs::Worker;
use holly_shell::worker::CmdOutcome;
use holly_shell::worker::UserError;

fn spawn_of(out: CmdOutcome) -> (Vec<Vec<String>>, bool) {
    match out {
        CmdOutcome::Spawn { pipeline } => (pipeline.stages, pipeline.background),
        _ => panic!("expected a pipeline to spawn"),
    }
}

#[test]
fn background_job_tracked_then_resumed_and_reaped() {
    let mut w = Worker::new(100);
    let (stages, bg) = spawn_of(w.on_command("sleep 50 &"));
    assert!(bg);
    assert_eq!(stages, vec![vec!["sleep".to_string(), "50".to_string()]]);

    let so = w.register_job(201, &vec![201], "sleep 50 &".to_string(), true);
    assert!(!so.claim_terminal);
    assert_eq!(so.reply, Some(Reply::Continue(0)));
    assert_eq!(w.fg, None);

    match w.run_jobs() {
        CmdOutcome::ListJobs { reports, code } => {
            assert_eq!(code, 0);
            assert_eq!(reports.len(), 1);
            assert_eq!(reports[0].id, 1);
            assert_eq!(reports[0].pgid, 201);
            assert!(!reports[0].stopped);
            assert_eq!(reports[0].cmd, "sleep 50 &");
        },
        _ => panic!("expected a job listing"),
    }

    let r = w.on_child_stopped(201);
    assert!(!r.restore_terminal);
    assert!(r.reply.is_none());
    match w.run_jobs() {
        CmdOutcome::ListJobs { reports, .. } => assert!(reports[0].stopped),
        _ => panic!("expected a job listing"),
    }

    match w.on_command("fg 1") {
        CmdOutcome::Foreground { pgid, job_id, cmd } => {
            assert_eq!(pgid, 201);
            assert_eq!(job_id, 1);
            assert_eq!(cmd, "sleep 50 &");
        },
        _ => panic!("expected a foreground transfer"),
    }
    assert_eq!(w.fg, Some(201));

    w.on_child_continued(201);
    let r = w.on_child_exited(201, 0);
    assert!(r.restore_terminal);
    assert_eq!(r.reply, Some(Reply::Continue(0)));
    assert_eq!(w.fg, None);
    assert_eq!(w.job_count(), 0);
    assert_eq!(w.exit_value, 0);
}

#[test]
fn pipeline_status_is_last_stage_code() {
    let mut w = Worker::new(100);
    let (stages, bg) = spawn_of(w.on_command("false | true"));
    assert!(!bg);
    assert_eq!(
        stages,
        vec![vec!["false".to_string()], vec!["true".to_string()]]
    );

    let so = w.register_job(301, &vec![301, 302], "false | true".to_string(), false);
    assert!(so.claim_terminal);
    assert!(so.reply.is_none());
    assert_eq!(w.fg, Some(301));
    assert_eq!(w.job_count(), 1);

    let r = w.on_child_exited(301, 1);
    assert!(!r.restore_terminal);
    assert!(r.reply.is_none());
    assert_eq!(w.job_count(), 1);

    let r = w.on_child_exited(302, 0);
    assert!(r.restore_terminal);
    assert_eq!(r.reply, Some(Reply::Continue(0)));
    assert_eq!(w.job_count(), 0);
    assert_eq!(w.exit_value, 0);
    assert_eq!(w.fg, None);
}

#[test]
fn pipeline_status_is_last_stage_code_whatever_the_reap_order() {
    // Same pipeline, adverse order: the wait poll reports the last stage
    // (`true`, status 0) first and the first stage (`false`, status 1) last.
    // The reported status must still be the last stage's 0.
    let mut w = Worker::new(100);
    w.on_command("false | true");
    w.register_job(311, &vec![311, 312], "false | true".to_string(), false);

    let r = w.on_child_exited(312, 0);
    assert!(!r.restore_terminal);
    assert!(r.reply.is_none());
    assert_eq!(w.job_count(), 1);

    let r = w.on_child_exited(311, 1);
    assert!(r.restore_terminal);
    assert_eq!(r.reply, Some(Reply::Continue(0)));
    assert_eq!(w.job_count(), 0);
    assert_eq!(w.exit_value, 0);
    assert_eq!(w.fg, None);
}

#[test]
fn parse_error_leaves_tables_alone_and_fails_status() {
    let mut w = Worker::new(100);
    match w.on_command("|cmd") {
        CmdOutcome::Reply { reply, err } => {
            assert_eq!(reply, Reply::Continue(1));
            assert!(matches!(err, Some(UserError::Syntax)));
        },
        _ => panic!("expected an immediate reply"),
    }
    assert_eq!(w.job_count(), 0);
    assert_eq!(w.exit_value, 1);
    match w.run_jobs() {
        CmdOutcome::ListJobs { reports, code } => {
            assert!(reports.is_empty());
            assert_eq!(code, 1);
        },
        _ => panic!("expected a job listing"),
    }
}

#[test]
fn exit_refused_while_job_tracked() {
    let mut w = Worker::new(100);
    w.on_command("sleep 9 &");
    w.register_job(401, &vec![401], "sleep 9 &".to_string(), true);
    match w.on_command("exit") {
        CmdOutcome::Reply { reply, err } => {
            assert_eq!(reply, Reply::Continue(1));
            assert!(matches!(err, Some(UserError::ExitJobsRunning)));
        },
        _ => panic!("expected an immediate reply"),
    }
    assert_eq!(w.job_count(), 1);
}

#[test]
fn exit_codes_with_no_jobs() {
    let mut w = Worker::new(100);
    match w.on_command("exit") {
        CmdOutcome::Reply { reply, err } => {
            assert_eq!(reply, Reply::Quit(0));
            assert!(err.is_none());
        },
        _ => panic!("expected an immediate reply"),
    }
    match w.on_command("exit 3") {
        CmdOutcome::Reply { reply, .. } => assert_eq!(reply, Reply::Quit(3)),
        _ => panic!("expected an immediate reply"),
    }
    match w.on_command("exit -7") {
        CmdOutcome::Reply { reply, .. } => assert_eq!(reply, Reply::Quit(-7)),
        _ => panic!("expected an immediate reply"),
    }
    match w.on_command("exit +5") {
        CmdOutcome::Reply { reply, .. } => assert_eq!(reply, Reply::Quit(5)),
        _ => panic!("expected an immediate reply"),
    }
    match w.on_command("exit zero") {
        CmdOutcome::Reply { reply, err } => {
            assert_eq!(reply, Reply::Continue(1));
            match err {
                Some(UserError::ExitBadArg(t)) => assert_eq!(t, "zero"),
                _ => panic!("expected the offending token"),
            }
        },
        _ => panic!("expected an immediate reply"),
    }
    assert_eq!(w.exit_value, 1);
    match w.on_command("exit") {
        CmdOutcome::Reply { reply, .. } => assert_eq!(reply, Reply::Quit(1)),
        _ => panic!("expected an immediate reply"),
    }
}

#[test]
fn fg_errors_and_fg_on_running_job() {
    let mut w = Worker::new(100);
    match w.on_command("fg") {
        CmdOutcome::Reply { reply, err } => {
            assert_eq!(reply, Reply::Continue(1));
            assert!(matches!(err, Some(UserError::FgUsage)));
        },
        _ => panic!("expected an immediate reply"),
    }
    match w.on_command("fg 9") {
        CmdOutcome::Reply { reply, err } => {
            assert_eq!(reply, Reply::Continue(1));
            assert!(matches!(err, Some(UserError::FgUnknownJob(_))));
        },
        _ => panic!("expected an immediate reply"),
    }
    match w.on_command("fg x") {
        CmdOutcome::Reply { err, .. } => {
            assert!(matches!(err, Some(UserError::FgUnknownJob(_))));
        },
        _ => panic!("expected an immediate reply"),
    }
    // 0 parses as a number but can never name a job: unknown, not usage
    match w.on_command("fg 0") {
        CmdOutcome::Reply { err, .. } => {
            assert!(matches!(err, Some(UserError::FgUnknownJob(_))));
        },
        _ => panic!("expected an immediate reply"),
    }
    w.on_command("sleep 9 &");
    w.register_job(501, &vec![501], "sleep 9 &".to_string(), true);
    // a still-running job may be brought to the foreground: the terminal
    // moves and the reply is deferred, exactly as for a stopped one
    match w.on_command("fg 1") {
        CmdOutcome::Foreground { pgid, .. } => assert_eq!(pgid, 501),
        _ => panic!("expected a foreground transfer"),
    }
    assert_eq!(w.fg, Some(501));
    assert_eq!(w.exit_value, 1);
}

#[test]
fn job_ids_are_reused_lowest_first() {
    let mut w = Worker::new(100);
    for (pg, line) in [(601, "a &"), (602, "b &"), (603, "c &")] {
        w.on_command(line);
        w.register_job(pg, &vec![pg], line.to_string(), true);
    }
    match w.run_jobs() {
        CmdOutcome::ListJobs { reports, .. } => {
            let ids: Vec<u64> = reports.iter().map(|r| r.id).collect();
            assert_eq!(ids, vec![1, 2, 3]);
        },
        _ => panic!("expected a job listing"),
    }
    let r = w.on_child_exited(602, 0);
    assert!(!r.restore_terminal);
    assert!(r.reply.is_none());
    w.on_command("d &");
    w.register_job(604, &vec![604], "d &".to_string(), true);
    match w.run_jobs() {
        CmdOutcome::ListJobs { reports, .. } => {
            let ids: Vec<u64> = reports.iter().map(|r| r.id).collect();
            let pgs: Vec<i32> = reports.iter().map(|r| r.pgid).collect();
            assert_eq!(ids, vec![1, 2, 3]);
            assert_eq!(pgs, vec![601, 604, 603]);
        },
        _ => panic!("expected a job listing"),
    }
}

#[test]
fn reaping_a_pid_twice_is_a_no_op() {
    let mut w = Worker::new(100);
    w.on_command("a &");
    w.register_job(701, &vec![701, 702], "a &".to_string(), true);
    let r = w.on_child_exited(701, 0);
    assert!(r.reply.is_none());
    assert_eq!(w.job_count(), 1);
    let r = w.on_child_exited(701, 0);
    assert!(!r.restore_terminal);
    assert!(r.reply.is_none());
    assert_eq!(w.job_count(), 1);
    let r = w.on_child_exited(702, 0);
    assert!(r.reply.is_none());
    assert_eq!(w.job_count(), 0);
}

#[test]
fn death_by_signal_folds_into_the_exit_code_space() {
    assert_eq!(holly_shell::jobs::signal_exit_code(9), 137);
    assert_eq!(holly_shell::jobs::signal_exit_code(15), 143);
    let mut w = Worker::new(100);
    w.on_command("a");
    w.register_job(901, &vec![901], "a".to_string(), false);
    let r = w.on_child_exited(901, holly_shell::jobs::signal_exit_code(9));
    assert_eq!(r.reply, Some(Reply::Continue(137)));
    assert_eq!(w.exit_value, 137);
}

#[test]
fn unknown_pids_are_ignored() {
    let mut w = Worker::new(100);
    let r = w.on_child_exited(999, 0);
    assert!(!r.restore_terminal);
    assert!(r.reply.is_none());
    let r = w.on_child_stopped(999);
    assert!(r.reply.is_none());
    w.on_child_continued(999);
    assert_eq!(w.job_count(), 0);
}

#[test]
fn foreground_group_stops_only_when_every_member_stopped() {
    let mut w = Worker::new(100);
    w.on_command("x | y");
    w.register_job(801, &vec![801, 802], "x | y".to_string(), false);
    assert_eq!(w.fg, Some(801));
    let r = w.on_child_stopped(801);
    assert!(!r.restore_terminal);
    assert!(r.reply.is_none());
    let r = w.on_child_stopped(802);
    assert!(r.restore_terminal);
    assert_eq!(r.reply, Some(Reply::Continue(0)));
    assert_eq!(w.fg, None);
    assert_eq!(w.job_count(), 1);
}

#[test]
fn builtin_name_in_pipeline_is_an_external_command() {
    let mut w = Worker::new(100);
    let (stages, bg) = spawn_of(w.on_command("exit | jobs"));
    assert!(!bg);
    assert_eq!(stages.len(), 2);
    assert_eq!(stages[0], vec!["exit".to_string()]);
    assert_eq!(stages[1], vec!["jobs".to_string()]);
}

#[test]
fn cd_decision_and_result() {
    let mut w = Worker::new(100);
    match w.on_command("cd") {
        CmdOutcome::Reply { reply, err } => {
            assert_eq!(reply, Reply::Continue(1));
            assert!(matches!(err, Some(UserError::CdUsage)));
        },
        _ => panic!("expected an immediate reply"),
    }
    match w.on_command("cd /tmp") {
        CmdOutcome::Chdir { dir } => assert_eq!(dir, "/tmp"),
        _ => panic!("expected a directory change"),
    }
    assert_eq!(w.chdir_result(true), Reply::Continue(0));
    assert_eq!(w.exit_value, 0);
    assert_eq!(w.chdir_result(false), Reply::Continue(1));
    assert_eq!(w.exit_value, 1);
    assert_eq!(w.spawn_failed(), Reply::Continue(1));
}
