use shim::dispatch::hook_command_lines;

#[test]
fn one_line_body_gives_one_command() {
    let args: Vec<String> = Vec::new();
    let cmds = hook_command_lines("echo hello", &args);
    assert_eq!(cmds, vec![vec!["echo".to_string(), "hello".to_string()]]);
}

#[test]
fn lines_run_in_source_order() {
    let args: Vec<String> = Vec::new();
    let cmds = hook_command_lines("first\nsecond one\nthird", &args);
    assert_eq!(cmds.len(), 3);
    assert_eq!(cmds[0], vec!["first".to_string()]);
    assert_eq!(cmds[1], vec!["second".to_string(), "one".to_string()]);
    assert_eq!(cmds[2], vec!["third".to_string()]);
}

#[test]
fn comment_lines_never_produce_a_command() {
    let args: Vec<String> = Vec::new();
    let cmds = hook_command_lines("# a comment\necho ok\n  # indented comment", &args);
    assert_eq!(cmds, vec![vec!["echo".to_string(), "ok".to_string()]]);
    let only_comments = hook_command_lines("# one\n# two", &args);
    assert_eq!(only_comments.len(), 0);
}

#[test]
fn empty_lines_are_skipped() {
    let args: Vec<String> = Vec::new();
    let cmds = hook_command_lines("\n\necho ok\n   \n", &args);
    assert_eq!(cmds, vec![vec!["echo".to_string(), "ok".to_string()]]);
}

#[test]
fn placeholder_is_substituted_before_splitting() {
    let args = vec!["one".to_string(), "two".to_string()];
    let cmds = hook_command_lines("echo $@", &args);
    assert_eq!(
        cmds,
        vec![vec!["echo".to_string(), "one".to_string(), "two".to_string()]]
    );
}

#[test]
fn lines_are_trimmed_before_parsing() {
    let args: Vec<String> = Vec::new();
    let cmds = hook_command_lines("   echo padded   ", &args);
    assert_eq!(cmds, vec![vec!["echo".to_string(), "padded".to_string()]]);
}
