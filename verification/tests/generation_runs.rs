use codex_image::codex::{
    command_path_entries, dedup_path_entries, default_codex_executable, keep_tail, lossy_text,
    parse_login_shell_path, process_group_target,
};
use codex_image::generation::{
    accepts_generated, admit_request, agent_text, codex_event_of, condition_image_arguments,
    exec_arguments, KillSignal, RawEvent, RunAction, RunInput, RunLoop, IDLE_TIMEOUT_MS, POLL_INTERVAL_MS, exit_failure, finalizing_message, first_line_of,
    run_ending, run_error, settling_manifest, timeout_message, AdmissionError, CodexEvent,
    ConditionArgsError, EventEffect, RunEnding, RunProgress, Sandbox, SettleOutcome, Termination,
};
use codex_image::manifest::{FinalOutput, OutputManifest};
use codex_image::model::StopReason;
use codex_image::prompt::{
    powershell_same_run_conditioning_section, same_run_conditioning_section, tail_chars,
};
use std::io::Read;

#[test]
fn stderr_tail_drains_input_and_retains_the_requested_suffix() {
    let input: Vec<_> = (0_u32..20_000)
        .map(|value| b'a' + (value % 26) as u8)
        .collect();
    let mut reader = std::io::Cursor::new(&input);
    let mut tail = Vec::new();
    let mut chunk = [0_u8; 8 * 1024];
    loop {
        match reader.read(&mut chunk) {
            Ok(0) | Err(_) => break,
            Ok(read) => keep_tail(&mut tail, &chunk[..read], 4_096),
        }
    }
    let result = lossy_text(&tail);
    assert_eq!(result.as_bytes(), &input[input.len() - 4_096..]);
}

#[test]
fn lossy_text_replaces_invalid_bytes() {
    assert_eq!(lossy_text(b"ok"), "ok");
    assert_eq!(lossy_text(&[b'a', 0xff, b'b']), "a\u{fffd}b");
}

#[test]
fn login_shell_path_parser_ignores_shell_startup_output() {
    let output = b"startup noise\n__CODEXIMAGE_PATH__=/user/bin:/usr/bin\n";
    assert_eq!(
        parse_login_shell_path(output),
        Some(b"/user/bin:/usr/bin".to_vec())
    );
}

#[test]
fn login_shell_path_parser_takes_the_last_marker_and_rejects_empty_values() {
    let output = b"__CODEXIMAGE_PATH__=/old\n__CODEXIMAGE_PATH__=/new";
    assert_eq!(parse_login_shell_path(output), Some(b"/new".to_vec()));
    assert_eq!(parse_login_shell_path(b"__CODEXIMAGE_PATH__=\n"), None);
    assert_eq!(parse_login_shell_path(b"no marker"), None);
}

#[test]
fn command_path_prefers_the_login_shell_and_deduplicates_entries() {
    let login = vec!["/tmp/x/login-bin".to_string(), "/tmp/x/shared-bin".to_string()];
    let inherited = vec!["/tmp/x/shared-bin".to_string(), "/tmp/x/inherited-bin".to_string()];
    let entries = command_path_entries(&login, &inherited, Some("/tmp/x"), &Vec::new());
    assert_eq!(entries[0], "/tmp/x/login-bin");
    assert_eq!(entries[1], "/tmp/x/shared-bin");
    assert_eq!(entries[2], "/tmp/x/inherited-bin");
    assert_eq!(
        entries.iter().filter(|entry| *entry == "/tmp/x/shared-bin").count(),
        1
    );
    assert!(entries.contains(&"/tmp/x/.bun/bin".to_string()));
    assert!(entries.contains(&"/opt/homebrew/bin".to_string()));
}

#[test]
fn path_deduplication_drops_empty_and_repeated_entries() {
    let entries = vec![
        "/a".to_string(),
        String::new(),
        "/b".to_string(),
        "/a/".to_string(),
        "/a".to_string(),
    ];
    assert_eq!(dedup_path_entries(&entries), vec!["/a", "/b"]);
}

#[test]
fn process_groups_are_negated_positive_pids() {
    assert_eq!(process_group_target(42), Some(-42));
    assert_eq!(process_group_target(0), None);
    assert_eq!(process_group_target(u32::MAX), None);
    assert_eq!(default_codex_executable(), "codex");
}

#[test]
fn same_run_instructions_force_conditioned_file_handoffs() {
    let instructions = same_run_conditioning_section(
        "/Applications/CodexImage.app/codex-image",
        "/tmp/work space/same-run",
    );

    assert!(instructions.contains("--condition-image"));
    assert!(instructions.contains("referenced_image_paths"));
    assert!(instructions.contains("Do not use `num_last_images_to_include`"));
    assert!(instructions.contains("Never put them in the final `outputs`"));
    assert!(instructions.contains("'/Applications/CodexImage.app/codex-image'"));
    assert!(instructions.contains("'/tmp/work space/same-run/step-N.png'"));
}

#[test]
fn powershell_instructions_quote_paths_by_doubling() {
    let instructions =
        powershell_same_run_conditioning_section("C:/Program Files/codex-image.exe", "C:/it's/same-run");
    assert!(instructions.contains(
        "& 'C:/Program Files/codex-image.exe' --condition-image '<RAW_GENERATED_PATH>' 'C:/it''s/same-run/step-N.png'"
    ));
}

#[test]
fn activity_tails_keep_the_requested_unicode_characters() {
    assert_eq!(tail_chars("a🙂бcd", 3), "бcd");
    assert_eq!(tail_chars("a🙂бcd", 20), "a🙂бcd");
    assert_eq!(tail_chars("a🙂бcd", 0), "");
}

#[test]
fn terminations_map_to_stop_reasons() {
    assert_eq!(Termination::User.stop_reason(), Some(StopReason::User));
    assert_eq!(Termination::AppQuit.stop_reason(), Some(StopReason::AppQuit));
    assert_eq!(Termination::Deleted.stop_reason(), Some(StopReason::Deleted));
    assert_eq!(Termination::Timeout.stop_reason(), None);
    assert_eq!(Termination::Replaced.stop_reason(), None);
    assert_eq!(run_ending(None), RunEnding::Finished);
    assert_eq!(run_ending(Some(Termination::Replaced)), RunEnding::Replaced);
    assert_eq!(run_ending(Some(Termination::Timeout)), RunEnding::TimedOut);
    assert_eq!(
        run_ending(Some(Termination::User)),
        RunEnding::Stopped(StopReason::User)
    );
}

#[test]
fn exec_arguments_name_the_sandbox_and_schema() {
    assert_eq!(Sandbox::WorkspaceWrite.as_arg(), "workspace-write");
    assert_eq!(Sandbox::ReadOnly.as_arg(), "read-only");
    let arguments = exec_arguments(Sandbox::ReadOnly, "/work", "/schema.json", "draw".to_string());
    assert_eq!(
        arguments,
        vec![
            "exec",
            "-s",
            "read-only",
            "-C",
            "/work",
            "--json",
            "--output-schema",
            "/schema.json",
            "--skip-git-repo-check",
            "draw"
        ]
    );
}

#[test]
fn boards_admit_at_most_twenty_runs() {
    assert_eq!(admit_request(0, 0), Ok(1));
    assert_eq!(admit_request(0, 9), Ok(4));
    assert_eq!(admit_request(16, 4), Ok(4));
    assert_eq!(admit_request(17, 4), Err(AdmissionError::TooManyRunning));
    assert_eq!(
        AdmissionError::TooManyRunning.message(),
        "Too many generations running on this board (max 20)"
    );
}

#[test]
fn events_update_the_run_and_announce_activity() {
    let mut progress = RunProgress::new();
    progress.apply(CodexEvent::ThreadStarted { thread_id: Some("t1".into()) });
    progress.apply(CodexEvent::ThreadStarted { thread_id: Some("t1".into()) });
    assert_eq!(progress.watchers, vec!["t1"]);
    progress.apply(CodexEvent::AgentMessage { text: Some("done".into()) });
    assert_eq!(progress.last_agent_message.as_deref(), Some("done"));
    match progress.apply(CodexEvent::Reasoning { text: Some("thinking hard\r\nmore".into()) }) {
        EventEffect::Activity(line) => assert_eq!(line, "thinking hard"),
        other => panic!("unexpected {other:?}"),
    }
    match progress.apply(CodexEvent::CommandExecution { command: Some("ls".into()) }) {
        EventEffect::Activity(line) => assert_eq!(line, "Running: ls"),
        other => panic!("unexpected {other:?}"),
    }
    match progress.apply(CodexEvent::TurnCompleted {
        usage: Some(vec![("input_tokens".into(), 5)]),
    }) {
        EventEffect::Usage(counts) => assert_eq!(counts, vec![("input_tokens".to_string(), 5)]),
        other => panic!("unexpected {other:?}"),
    }
    assert!(progress.turn_completed);
    progress.apply(CodexEvent::Failed { message: "boom".into() });
    assert_eq!(progress.failures, vec!["boom"]);
    assert_eq!(first_line_of(""), "");
    assert_eq!(first_line_of("a\rb"), "a\rb");
}

#[test]
fn finished_runs_record_the_right_error() {
    assert_eq!(run_error(None, Some("bad".into()), 3), Some("bad".to_string()));
    assert_eq!(
        run_error(None, None, 0),
        Some("Generation failed before producing an image.".to_string())
    );
    assert_eq!(
        run_error(None, None, 2),
        Some("Automatic final selection failed; 2 generated image(s) remain unfinalized.".to_string())
    );
    assert_eq!(
        run_error(Some(SettleOutcome::Failed("nope".into())), None, 1),
        Some("Automatic final selection failed: nope".to_string())
    );
    assert_eq!(
        run_error(
            Some(SettleOutcome::Applied { complete: false, summary: String::new() }),
            None,
            1
        ),
        Some("Only part of the requested output set was completed.".to_string())
    );
    assert_eq!(
        run_error(
            Some(SettleOutcome::Applied { complete: false, summary: "half".into() }),
            None,
            1
        ),
        Some("half".to_string())
    );
    assert_eq!(
        run_error(
            Some(SettleOutcome::Applied { complete: true, summary: "all".into() }),
            None,
            1
        ),
        None
    );
}

#[test]
fn run_messages_are_spelled_out() {
    assert_eq!(
        timeout_message(0),
        "No generation activity for 20 minutes. No images were generated."
    );
    assert_eq!(
        timeout_message(3),
        "No generation activity for 20 minutes. 3 unfinalized image(s) were saved before the timeout."
    );
    assert_eq!(exit_failure("  \n", "exit status: 2"), "codex exited with exit status: 2");
    assert_eq!(exit_failure(" oops \n", "exit status: 2"), "oops");
    assert_eq!(finalizing_message(4), "Finalizing 4 generated images");
    assert_eq!(agent_text(Some("sum".into()), "raw"), "sum");
    assert_eq!(agent_text(None, "  raw  "), "raw");
}

#[test]
fn a_manifest_settles_a_run_only_after_the_turn_completed() {
    let manifest = || OutputManifest {
        summary: "s".into(),
        complete: true,
        outputs: vec![FinalOutput { path: "/a.png".into(), label: "A".into() }],
    };
    assert!(settling_manifest(false, Some(manifest()), true).is_none());
    assert!(settling_manifest(true, Some(manifest()), false).is_some());
    let empty = OutputManifest { summary: String::new(), complete: false, outputs: Vec::new() };
    assert!(settling_manifest(true, Some(empty), false).is_none());
    let empty = OutputManifest { summary: String::new(), complete: false, outputs: Vec::new() };
    assert!(settling_manifest(true, Some(empty), true).is_some());
}

fn args(values: &[&str]) -> Vec<String> {
    values.iter().map(|value| (*value).to_string()).collect()
}

#[test]
fn conditioning_command_lines_take_exactly_two_paths() {
    assert_eq!(condition_image_arguments(&args(&[])), Ok(None));
    assert_eq!(condition_image_arguments(&args(&["--other", "a", "b"])), Ok(None));
    assert_eq!(
        condition_image_arguments(&args(&["--condition-image", "/in.png", "/out.png"])),
        Ok(Some(("/in.png".to_string(), "/out.png".to_string())))
    );
    assert_eq!(
        condition_image_arguments(&args(&["--condition-image"])),
        Err(ConditionArgsError::MissingSource)
    );
    assert_eq!(
        condition_image_arguments(&args(&["--condition-image", "/in.png"])),
        Err(ConditionArgsError::MissingOutput)
    );
    assert_eq!(
        condition_image_arguments(&args(&["--condition-image", "a", "b", "c"])),
        Err(ConditionArgsError::ExtraArgument)
    );
    assert_eq!(
        ConditionArgsError::ExtraArgument.message(),
        "--condition-image accepts exactly a source and output path"
    );
}

fn raw(kind: &str) -> RawEvent {
    RawEvent {
        kind: Some(kind.to_string()),
        thread_id: None,
        has_item: false,
        item_kind: None,
        item_text: None,
        item_command: None,
        usage: None,
        has_error_message: false,
        error_message: None,
        message: None,
    }
}

#[test]
fn stream_lines_are_read_into_events() {
    let mut started = raw("thread.started");
    started.thread_id = Some("t1".into());
    assert!(matches!(codex_event_of(started), CodexEvent::ThreadStarted { thread_id: Some(id) } if id == "t1"));
    let mut item = raw("item.completed");
    item.has_item = true;
    item.item_kind = Some("command_execution".into());
    item.item_command = Some("ls".into());
    assert!(matches!(codex_event_of(item), CodexEvent::CommandExecution { command: Some(c) } if c == "ls"));
    let mut empty_item = raw("item.completed");
    empty_item.item_kind = Some("reasoning".into());
    assert!(matches!(codex_event_of(empty_item), CodexEvent::Other));
    let mut turn = raw("turn.completed");
    turn.usage = Some(vec![("input_tokens".into(), Some(5)), ("note".into(), None), ("output_tokens".into(), Some(7))]);
    match codex_event_of(turn) {
        CodexEvent::TurnCompleted { usage: Some(counts) } => {
            assert_eq!(counts, vec![("input_tokens".to_string(), 5), ("output_tokens".to_string(), 7)]);
        }
        other => panic!("unexpected {other:?}"),
    }
    let mut failed = raw("turn.failed");
    failed.message = Some("outer".into());
    assert!(matches!(codex_event_of(failed), CodexEvent::Failed { message } if message == "outer"));
    let mut error = raw("error");
    error.has_error_message = true;
    error.error_message = Some("inner".into());
    error.message = Some("outer".into());
    assert!(matches!(codex_event_of(error), CodexEvent::Failed { message } if message == "inner"));
    let mut not_text = raw("error");
    not_text.has_error_message = true;
    not_text.message = Some("outer".into());
    assert!(matches!(codex_event_of(not_text), CodexEvent::Failed { message } if message == "Generation failed"));
    assert!(matches!(codex_event_of(raw("error")), CodexEvent::Failed { message } if message == "Generation failed"));
    assert!(matches!(codex_event_of(raw("turn.started")), CodexEvent::Other));
}

#[test]
fn idle_runs_time_out_and_polls_come_on_schedule() {
    let mut run = RunLoop::new(1_000);
    assert!(run.may_launch());
    assert!(matches!(run.step(RunInput::Spawned), RunAction::Nothing));
    assert!(matches!(run.step(RunInput::Tick { now_ms: 1_500 }), RunAction::Nothing));
    assert!(matches!(run.step(RunInput::Tick { now_ms: 1_000 + POLL_INTERVAL_MS }), RunAction::Collect));
    assert!(matches!(
        run.step(RunInput::Collected { any_new: true, now_ms: 5_000 }),
        RunAction::Nothing
    ));
    assert_eq!(run.last_activity_ms, 5_000);
    let late = 5_000 + IDLE_TIMEOUT_MS;
    assert!(matches!(run.step(RunInput::Collected { any_new: false, now_ms: late }), RunAction::Kill(KillSignal::Kill)));
    assert_eq!(run.termination, Some(Termination::Timeout));
    assert!(!run.may_launch());
    assert!(matches!(run.step(RunInput::Spawned), RunAction::Kill(KillSignal::Kill)));
    assert!(matches!(
        run.step(RunInput::Exited { success: false, status: "exit status: 1".into(), stderr_tail: String::new() }),
        RunAction::Finish
    ));
    assert!(run.progress.failures.is_empty());
}

#[test]
fn lines_count_as_activity_and_failed_exits_are_recorded() {
    let mut run = RunLoop::new(0);
    assert!(matches!(run.step(RunInput::Line { event: None, now_ms: 700 }), RunAction::Nothing));
    assert_eq!(run.last_activity_ms, 700);
    let mut message = raw("item.completed");
    message.has_item = true;
    message.item_kind = Some("agent_message".into());
    message.item_text = Some("done".into());
    let event = codex_event_of(message);
    assert!(matches!(run.step(RunInput::Line { event: Some(event), now_ms: 800 }), RunAction::Event(EventEffect::Nothing)));
    assert_eq!(run.progress.last_agent_message.as_deref(), Some("done"));
    assert!(matches!(
        run.step(RunInput::Exited { success: false, status: "exit status: 2".into(), stderr_tail: "  ".into() }),
        RunAction::Finish
    ));
    assert_eq!(run.progress.failures, vec!["codex exited with exit status: 2".to_string()]);
    let mut stopped = RunLoop::new(0);
    assert!(matches!(stopped.step(RunInput::Stop(Termination::User)), RunAction::Kill(KillSignal::Terminate)));
    assert_eq!(stopped.termination, Some(Termination::User));
    assert!(matches!(stopped.step(RunInput::Tick { now_ms: IDLE_TIMEOUT_MS }), RunAction::Collect));
    assert!(matches!(stopped.step(RunInput::Collected { any_new: false, now_ms: IDLE_TIMEOUT_MS }), RunAction::Nothing));
}

#[test]
fn generated_files_are_taken_once_their_size_settles() {
    assert!(accepts_generated(false, true, 10, Some(10), true, true));
    assert!(!accepts_generated(true, true, 10, Some(10), true, true));
    assert!(!accepts_generated(false, false, 10, Some(10), true, true));
    assert!(!accepts_generated(false, true, 0, Some(0), true, true));
    assert!(!accepts_generated(false, true, 10, None, true, true));
    assert!(!accepts_generated(false, true, 10, Some(9), true, true));
    assert!(!accepts_generated(false, true, 10, Some(10), false, true));
    assert!(!accepts_generated(false, true, 10, Some(10), true, false));
}

#[test]
fn stops_ask_a_user_run_to_end_and_kill_the_others() {
    for (reason, signal) in [
        (Termination::User, KillSignal::Terminate),
        (Termination::AppQuit, KillSignal::Kill),
        (Termination::Deleted, KillSignal::Kill),
        (Termination::Replaced, KillSignal::Kill),
    ] {
        let mut run = RunLoop::new(0);
        match run.step(RunInput::Stop(reason)) {
            RunAction::Kill(sent) => assert_eq!(sent, signal),
            other => panic!("unexpected {other:?}"),
        }
        assert!(matches!(run.step(RunInput::Spawned), RunAction::Kill(KillSignal::Kill)));
    }
}
