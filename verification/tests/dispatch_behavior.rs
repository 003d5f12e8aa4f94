use shim::dispatch::{App, CommandSource, DispatchError, DispatchRun, ExecutionOutcome};
use shim::shim::{Shim, ShimWithMetaInfo, SubcommandShim};

fn hook(on: Option<&str>, run: &str) -> SubcommandShim {
    SubcommandShim {
        on_subcommand: on.map(|s| s.to_string()),
        env: None,
        run: run.to_string(),
    }
}

fn entry(
    program: &str,
    pre: Option<Vec<SubcommandShim>>,
    overrides: Option<Vec<SubcommandShim>>,
    post: Option<Vec<SubcommandShim>>,
) -> ShimWithMetaInfo {
    ShimWithMetaInfo::new(
        Shim::new(program.to_string(), pre, overrides, post, None),
        "test.yaml".to_string(),
    )
}

fn strings(words: &[&str]) -> Vec<String> {
    words.iter().map(|w| w.to_string()).collect()
}

#[test]
fn no_hooks_runs_the_program_once() {
    let app = App::new(vec![entry("git", None, None, None)]);
    let invoked = strings(&["git", "status", "-s"]);
    let plan = app.build_plan("git", &invoked).unwrap();
    assert_eq!(plan.len(), 1);
    assert!(plan[0].source == CommandSource::Program);
    assert_eq!(plan[0].tokens, invoked);
}

#[test]
fn empty_hook_lists_run_the_program_once() {
    let app = App::new(vec![entry("git", Some(vec![]), Some(vec![]), Some(vec![]))]);
    let invoked = strings(&["git", "push"]);
    let plan = app.build_plan("git", &invoked).unwrap();
    assert_eq!(plan.len(), 1);
    assert!(plan[0].source == CommandSource::Program);
    assert_eq!(plan[0].tokens, invoked);
}

#[test]
fn default_hook_fires_only_without_arguments() {
    let mk = || App::new(vec![entry("git", Some(vec![hook(None, "echo pre")]), None, None)]);

    let bare = strings(&["git"]);
    let plan = mk().build_plan("git", &bare).unwrap();
    assert_eq!(plan.len(), 2);
    assert!(plan[0].source == CommandSource::PreHook);
    assert_eq!(plan[0].tokens, strings(&["echo", "pre"]));
    assert!(plan[1].source == CommandSource::Program);

    let with_sub = strings(&["git", "status"]);
    let plan = mk().build_plan("git", &with_sub).unwrap();
    assert_eq!(plan.len(), 1);
    assert!(plan[0].source == CommandSource::Program);
}

#[test]
fn subcommand_hook_fires_only_on_matching_first_argument() {
    let mk = || {
        App::new(vec![entry(
            "make",
            Some(vec![hook(Some("build"), "echo building")]),
            None,
            None,
        )])
    };

    let matching = strings(&["make", "build", "-j4"]);
    let plan = mk().build_plan("make", &matching).unwrap();
    assert_eq!(plan.len(), 2);
    assert_eq!(plan[0].tokens, strings(&["echo", "building"]));

    let other = strings(&["make", "clean"]);
    let plan = mk().build_plan("make", &other).unwrap();
    assert_eq!(plan.len(), 1);
    assert!(plan[0].source == CommandSource::Program);

    let bare = strings(&["make"]);
    let plan = mk().build_plan("make", &bare).unwrap();
    assert_eq!(plan.len(), 1);
    assert!(plan[0].source == CommandSource::Program);
}

#[test]
fn override_replaces_the_original_program() {
    let app = App::new(vec![entry(
        "git",
        None,
        Some(vec![hook(Some("push"), "echo instead")]),
        None,
    )]);
    let invoked = strings(&["git", "push", "origin"]);
    let plan = app.build_plan("git", &invoked).unwrap();
    assert_eq!(plan.len(), 1);
    assert!(plan[0].source == CommandSource::OverrideHook);
    assert_eq!(plan[0].tokens, strings(&["echo", "instead"]));
    for cmd in &plan {
        assert!(cmd.source != CommandSource::Program);
    }
}

#[test]
fn matching_noop_override_still_suppresses_the_program() {
    let app = App::new(vec![entry(
        "git",
        None,
        Some(vec![hook(Some("push"), "# nothing to do")]),
        None,
    )]);
    let invoked = strings(&["git", "push"]);
    let plan = app.build_plan("git", &invoked).unwrap();
    assert_eq!(plan.len(), 0);
    let run = DispatchRun::new(plan);
    assert!(run.next_command().is_none());
    assert_eq!(run.conclusion(), Ok(()));
}

#[test]
fn push_scenario_runs_program_then_post_hook() {
    let app = App::new(vec![entry(
        "git",
        Some(vec![hook(None, "echo pre")]),
        Some(vec![]),
        Some(vec![hook(Some("push"), "echo pushed")]),
    )]);
    let invoked = strings(&["git", "push", "origin", "main"]);
    let plan = app.build_plan("git", &invoked).unwrap();
    // The unscoped pre-hook is a default hook: it fires only when the
    // invocation has no subcommand token, so here the plan is the real
    // program followed by the matching post-hook.
    assert_eq!(plan.len(), 2);
    assert!(plan[0].source == CommandSource::Program);
    assert_eq!(plan[0].tokens, invoked);
    assert!(plan[1].source == CommandSource::PostHook);
    assert_eq!(plan[1].tokens, strings(&["echo", "pushed"]));

    let mut run = DispatchRun::new(plan);
    let first = run.next_command().unwrap();
    assert_eq!(first.tokens, invoked);
    run.report(ExecutionOutcome::Exited(0));
    let second = run.next_command().unwrap();
    assert_eq!(second.tokens, strings(&["echo", "pushed"]));
    run.report(ExecutionOutcome::Exited(0));
    assert!(run.next_command().is_none());
    assert_eq!(run.conclusion(), Ok(()));
}

#[test]
fn scoped_hooks_run_in_pre_program_post_order() {
    let app = App::new(vec![entry(
        "git",
        Some(vec![hook(Some("push"), "echo pre")]),
        Some(vec![]),
        Some(vec![hook(Some("push"), "echo pushed")]),
    )]);
    let invoked = strings(&["git", "push", "origin", "main"]);
    let plan = app.build_plan("git", &invoked).unwrap();
    assert_eq!(plan.len(), 3);
    assert_eq!(plan[0].tokens, strings(&["echo", "pre"]));
    assert!(plan[0].source == CommandSource::PreHook);
    assert_eq!(plan[1].tokens, invoked);
    assert!(plan[1].source == CommandSource::Program);
    assert_eq!(plan[2].tokens, strings(&["echo", "pushed"]));
    assert!(plan[2].source == CommandSource::PostHook);
}

#[test]
fn status_scenario_skips_the_push_post_hook() {
    let app = App::new(vec![entry(
        "git",
        Some(vec![hook(None, "echo pre")]),
        Some(vec![]),
        Some(vec![hook(Some("push"), "echo pushed")]),
    )]);
    let invoked = strings(&["git", "status"]);
    let plan = app.build_plan("git", &invoked).unwrap();
    assert_eq!(plan.len(), 1);
    assert!(plan[0].source == CommandSource::Program);
    assert_eq!(plan[0].tokens, invoked);
}

#[test]
fn fail_fast_stops_remaining_lines_and_phases() {
    let app = App::new(vec![entry(
        "prog",
        Some(vec![hook(None, "cmd1\ncmd2")]),
        None,
        Some(vec![hook(None, "echo after")]),
    )]);
    let invoked = strings(&["prog"]);
    let plan = app.build_plan("prog", &invoked).unwrap();
    assert_eq!(plan.len(), 4);

    let mut run = DispatchRun::new(plan);
    let first = run.next_command().unwrap();
    assert_eq!(first.tokens, strings(&["cmd1"]));
    run.report(ExecutionOutcome::Exited(1));
    assert!(run.next_command().is_none());
    assert_eq!(run.conclusion(), Err(DispatchError::HookFailure(1)));
}

#[test]
fn program_failure_maps_to_exit_non_zero() {
    let app = App::new(vec![entry("prog", None, None, None)]);
    let invoked = strings(&["prog", "arg"]);
    let plan = app.build_plan("prog", &invoked).unwrap();
    let mut run = DispatchRun::new(plan);
    run.next_command().unwrap();
    run.report(ExecutionOutcome::Exited(3));
    assert!(run.next_command().is_none());
    assert_eq!(run.conclusion(), Err(DispatchError::ExitNonZero(3)));
}

#[test]
fn spawn_and_stream_failures_keep_their_kind() {
    let mk_run = || {
        let app = App::new(vec![entry("prog", None, None, None)]);
        let plan = app.build_plan("prog", &strings(&["prog"])).unwrap();
        DispatchRun::new(plan)
    };

    let mut run = mk_run();
    run.next_command().unwrap();
    run.report(ExecutionOutcome::SpawnFailed);
    assert_eq!(run.conclusion(), Err(DispatchError::SpawnFailed));

    let mut run = mk_run();
    run.next_command().unwrap();
    run.report(ExecutionOutcome::StreamReadFailed);
    assert_eq!(run.conclusion(), Err(DispatchError::StreamReadFailed));
}

#[test]
fn unregistered_program_is_an_error() {
    let app = App::new(vec![entry("git", None, None, None)]);
    let invoked = strings(&["ls", "-la"]);
    assert_eq!(
        app.build_plan("ls", &invoked),
        Err(DispatchError::NoShimRegistered)
    );
}

#[test]
fn later_entries_replace_earlier_ones_for_the_same_program() {
    let app = App::new(vec![
        entry("git", Some(vec![hook(None, "echo old")]), None, None),
        entry("git", Some(vec![hook(None, "echo fresh")]), None, None),
    ]);
    let invoked = strings(&["git"]);
    let plan = app.build_plan("git", &invoked).unwrap();
    assert_eq!(plan.len(), 2);
    assert_eq!(plan[0].tokens, strings(&["echo", "fresh"]));
}

#[test]
fn hook_arguments_reach_hook_commands() {
    let app = App::new(vec![entry(
        "git",
        Some(vec![hook(Some("push"), "echo args: $@")]),
        None,
        None,
    )]);
    let invoked = strings(&["git", "push", "origin"]);
    let plan = app.build_plan("git", &invoked).unwrap();
    assert_eq!(plan[0].tokens, strings(&["echo", "args:", "push", "origin"]));
}
