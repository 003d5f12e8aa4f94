use shim::dispatch::App;
use shim::shim::{Shim, ShimFile, ShimWithMetaInfo, SubcommandShim};

fn sample_shim() -> Shim {
    Shim::new(
        "git".to_string(),
        Some(vec![SubcommandShim {
            on_subcommand: None,
            env: None,
            run: "echo pre".to_string(),
        }]),
        None,
        Some(vec![SubcommandShim {
            on_subcommand: Some("push".to_string()),
            env: None,
            run: "echo pushed".to_string(),
        }]),
        Some(vec!["KEY=value".to_string()]),
    )
}

#[test]
fn accessors_return_what_was_constructed() {
    let s = sample_shim();
    assert_eq!(s.program(), "git");
    let pre = s.pre_hooks().as_ref().unwrap();
    assert_eq!(pre.len(), 1);
    assert_eq!(pre[0].run, "echo pre");
    assert!(pre[0].on_subcommand.is_none());
    assert!(s.overrides().is_none());
    let post = s.post_hooks().as_ref().unwrap();
    assert_eq!(post[0].on_subcommand.as_deref(), Some("push"));
    let env = s.env().as_ref().unwrap();
    assert_eq!(env[0], "KEY=value");
}

#[test]
fn shim_file_hands_its_shims_back_in_order() {
    let file = ShimFile::new(vec![
        Shim::new("a".to_string(), None, None, None, None),
        Shim::new("b".to_string(), None, None, None, None),
    ]);
    let shims = file.shims();
    assert_eq!(shims.len(), 2);
    assert_eq!(shims[0].program(), "a");
    assert_eq!(shims[1].program(), "b");
}

#[test]
fn shell_function_renders_the_wrapper() {
    let meta = ShimWithMetaInfo::new(
        Shim::new("git".to_string(), None, None, None, None),
        "/home/u/.config/shim/shims/git.yaml".to_string(),
    );
    let text = meta.shell_function("2024-01-02 03:04:05", "/usr/local/bin/shim");
    let expected = "function git(){\n    # Shim for git\n    # Created automatically by \
/usr/local/bin/shim\n    #    from config file /home/u/.config/shim/shims/git.yaml\n    \
#    at 2024-01-02 03:04:05\n    shim exec -- git \"$@\"\n}";
    assert_eq!(text, expected);
}

#[test]
fn generate_shims_renders_one_wrapper_per_entry() {
    let app = App::new(vec![
        ShimWithMetaInfo::new(
            Shim::new("git".to_string(), None, None, None, None),
            "a.yaml".to_string(),
        ),
        ShimWithMetaInfo::new(
            Shim::new("ls".to_string(), None, None, None, None),
            "b.yaml".to_string(),
        ),
    ]);
    let rendered = app.generate_shims("now", "/bin/shim");
    assert_eq!(rendered.len(), 2);
    assert!(rendered[0].starts_with("function git(){"));
    assert!(rendered[1].starts_with("function ls(){"));
    assert!(rendered[0].contains("shim exec -- git \"$@\""));
}

#[test]
fn list_shows_programs_and_hooks() {
    let app = App::new(vec![ShimWithMetaInfo::new(sample_shim(), "git.yaml".to_string())]);
    let text = app.list();
    let expected = "> git\n  * Pre-hooks:\n    - echo pre\n  * Post-hooks:\n    - on push: echo pushed\n";
    assert_eq!(text, expected);
}

#[test]
fn list_shows_each_program_once_after_replacement() {
    let app = App::new(vec![
        ShimWithMetaInfo::new(
            Shim::new("git".to_string(), None, None, None, None),
            "a.yaml".to_string(),
        ),
        ShimWithMetaInfo::new(
            Shim::new("git".to_string(), Some(vec![]), None, None, None),
            "b.yaml".to_string(),
        ),
    ]);
    let text = app.list();
    assert_eq!(text, "> git\n  * Pre-hooks:\n");
}
