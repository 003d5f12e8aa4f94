use shim::text::{join_args, lines_of, str_eq, substitute_args, tokens, trim};

#[test]
fn trim_removes_surrounding_whitespace() {
    assert_eq!(trim("  hello  "), "hello");
    assert_eq!(trim("\t a b \r\n"), "a b");
    assert_eq!(trim("word"), "word");
    assert_eq!(trim("   "), "");
    assert_eq!(trim(""), "");
}

#[test]
fn tokens_split_on_whitespace_runs() {
    let t = tokens("echo  a\tb");
    assert_eq!(t, vec!["echo".to_string(), "a".to_string(), "b".to_string()]);
    let empty = tokens("   ");
    assert_eq!(empty.len(), 0);
    let one = tokens("ls");
    assert_eq!(one, vec!["ls".to_string()]);
}

#[test]
fn lines_split_on_newlines() {
    let l = lines_of("a\nb\nc");
    assert_eq!(l, vec!["a".to_string(), "b".to_string(), "c".to_string()]);
    let trailing = lines_of("a\n");
    assert_eq!(trailing, vec!["a".to_string(), "".to_string()]);
    let empty = lines_of("");
    assert_eq!(empty, vec!["".to_string()]);
}

#[test]
fn join_args_uses_single_spaces() {
    let args = vec!["a".to_string(), "b".to_string()];
    assert_eq!(join_args(&args), "a b");
    let none: Vec<String> = Vec::new();
    assert_eq!(join_args(&none), "");
    let one = vec!["x".to_string()];
    assert_eq!(join_args(&one), "x");
}

#[test]
fn substitution_replaces_plain_placeholder() {
    let args = vec!["a".to_string(), "b".to_string()];
    assert_eq!(substitute_args("echo $@", &args), "echo a b");
    assert_eq!(substitute_args("echo $@ and $@", &args), "echo a b and a b");
}

#[test]
fn substitution_replaces_braced_placeholder() {
    let args = vec!["a".to_string(), "b".to_string()];
    assert_eq!(substitute_args("echo ${@}", &args), "echo a b");
}

#[test]
fn substitution_leaves_other_text_alone() {
    let args = vec!["a".to_string()];
    assert_eq!(substitute_args("echo $HOME", &args), "echo $HOME");
    assert_eq!(substitute_args("no placeholder", &args), "no placeholder");
}

#[test]
fn substitution_with_no_args_erases_placeholder() {
    let none: Vec<String> = Vec::new();
    assert_eq!(substitute_args("echo $@", &none), "echo ");
}

#[test]
fn substitution_is_idempotent_on_its_result() {
    let args = vec!["a".to_string(), "b".to_string()];
    let once = substitute_args("echo $@ then ${@}", &args);
    assert_eq!(once, "echo a b then a b");
    let twice = substitute_args(once.as_str(), &args);
    assert_eq!(twice, once);
}

#[test]
fn str_eq_compares_contents() {
    assert!(str_eq("abc", "abc"));
    assert!(!str_eq("abc", "abd"));
    assert!(!str_eq("abc", "ab"));
    assert!(str_eq("", ""));
}
