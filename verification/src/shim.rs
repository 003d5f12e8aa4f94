//! The shim data model: a shim names a real program and carries ordered
//! lists of hooks to run before, instead of, or after it.

use vstd::prelude::*;

verus! {

/// Mathematical image of a `SubcommandShim`.
pub ghost struct HookView {
    pub on_subcommand: Option<Seq<char>>,
    pub env: Option<Seq<Seq<char>>>,
    pub run: Seq<char>,
}

/// One hook of a shim: a required command text (one or more newline-separated
/// command lines), optionally scoped to a subcommand token and optionally
/// carrying environment assignments.
///
/// A hook with `on_subcommand == None` fires only when the invocation has no
/// arguments; one with `on_subcommand == Some(s)` fires only when the first
/// argument equals `s` exactly.
#[derive(Debug)]
pub struct SubcommandShim {
    pub on_subcommand: Option<String>,
    pub env: Option<Vec<String>>,
    pub run: String,
}

impl View for SubcommandShim {
    type V = HookView;

    open spec fn view(&self) -> HookView {
        HookView {
            on_subcommand: self.on_subcommand.deep_view(),
            env: self.env.deep_view(),
            run: self.run@,
        }
    }
}

impl DeepView for SubcommandShim {
    type V = HookView;

    open spec fn deep_view(&self) -> HookView {
        self.view()
    }
}

/// Mathematical image of a `Shim`.
pub ghost struct ShimView {
    pub program: Seq<char>,
    pub pre: Option<Seq<HookView>>,
    pub overrides: Option<Seq<HookView>>,
    pub post: Option<Seq<HookView>>,
    pub env: Option<Seq<Seq<char>>>,
}

/// A shim intercepts one named program. It owns three ordered hook lists:
/// pre-hooks run before the program, override hooks run instead of it when
/// any of them matches, and post-hooks run after it. An absent list is
/// treated as empty.
#[derive(Debug)]
pub struct Shim {
    program: String,
    pre: Option<Vec<SubcommandShim>>,
    override_hooks: Option<Vec<SubcommandShim>>,
    post: Option<Vec<SubcommandShim>>,
    env: Option<Vec<String>>,
}

impl View for Shim {
    type V = ShimView;

    closed spec fn view(&self) -> ShimView {
        ShimView {
            program: self.program@,
            pre: self.pre.deep_view(),
            overrides: self.override_hooks.deep_view(),
            post: self.post.deep_view(),
            env: self.env.deep_view(),
        }
    }
}

impl DeepView for Shim {
    type V = ShimView;

    open spec fn deep_view(&self) -> ShimView {
        self.view()
    }
}

impl Shim {
    pub fn new(
        program: String,
        pre: Option<Vec<SubcommandShim>>,
        override_hooks: Option<Vec<SubcommandShim>>,
        post: Option<Vec<SubcommandShim>>,
        env: Option<Vec<String>>,
    ) -> (r: Shim)
        ensures
            (r@ == ShimView {
                program: program@,
                pre: pre.deep_view(),
                overrides: override_hooks.deep_view(),
                post: post.deep_view(),
                env: env.deep_view(),
            }),
    {
        Shim { program, pre, override_hooks, post, env }
    }

    /// The name of the program this shim intercepts.
    pub fn program(&self) -> (r: &str)
        ensures
            r@ == self@.program,
    {
        self.program.as_str()
    }

    /// The hooks run before the program.
    pub fn pre_hooks(&self) -> (r: &Option<Vec<SubcommandShim>>)
        ensures
            r.deep_view() == self@.pre,
    {
        &self.pre
    }

    /// The hooks run after the program.
    pub fn post_hooks(&self) -> (r: &Option<Vec<SubcommandShim>>)
        ensures
            r.deep_view() == self@.post,
    {
        &self.post
    }

    /// The hooks run instead of the program when any of them matches.
    pub fn overrides(&self) -> (r: &Option<Vec<SubcommandShim>>)
        ensures
            r.deep_view() == self@.overrides,
    {
        &self.override_hooks
    }

    /// The shim's environment assignments.
    pub fn env(&self) -> (r: &Option<Vec<String>>)
        ensures
            r.deep_view() == self@.env,
    {
        &self.env
    }
}

/// Mathematical image of a `ShimWithMetaInfo`.
pub ghost struct ShimMetaView {
    pub shim: ShimView,
    pub file: Seq<char>,
}

/// A shim together with the path of the configuration file it was read from.
#[derive(Debug)]
pub struct ShimWithMetaInfo {
    pub shim: Shim,
    file: String,
}

impl View for ShimWithMetaInfo {
    type V = ShimMetaView;

    closed spec fn view(&self) -> ShimMetaView {
        ShimMetaView { shim: self.shim@, file: self.file@ }
    }
}

impl DeepView for ShimWithMetaInfo {
    type V = ShimMetaView;

    open spec fn deep_view(&self) -> ShimMetaView {
        self.view()
    }
}

/// The exact text of the shell wrapper function that `shell_function`
/// returns for a shim.
pub open spec fn spec_shell_function(
    m: ShimMetaView,
    timestamp: Seq<char>,
    this_program_path: Seq<char>,
) -> Seq<char> {
    ("function ")@ + m.shim.program + ("(){\n    # Shim for ")@ + m.shim.program
        + ("\n    # Created automatically by ")@ + this_program_path
        + ("\n    #    from config file ")@ + m.file + ("\n    #    at ")@ + timestamp
        + ("\n    shim exec -- ")@ + m.shim.program + (" \"$@\"\n}")@
}

impl ShimWithMetaInfo {
    pub fn new(shim: Shim, file: String) -> (r: Self)
        ensures
            (r@ == ShimMetaView { shim: shim@, file: file@ }),
    {
        ShimWithMetaInfo { shim, file }
    }

    /// The shim itself.
    pub fn shim(&self) -> (r: &Shim)
        ensures
            r@ == self@.shim,
    {
        &self.shim
    }

    /// Renders the shell function that makes an interactive shell route
    /// invocations of the shim's program through the dispatcher.
    pub fn shell_function(&self, timestamp: &str, this_program_path: &str) -> (r: String)
        ensures
            r@ == spec_shell_function(self@, timestamp@, this_program_path@),
    {
        let mut r = String::from_str("function ");
        r.append(self.shim.program());
        r.append("(){\n    # Shim for ");
        r.append(self.shim.program());
        r.append("\n    # Created automatically by ");
        r.append(this_program_path);
        r.append("\n    #    from config file ");
        r.append(self.file.as_str());
        r.append("\n    #    at ");
        r.append(timestamp);
        r.append("\n    shim exec -- ");
        r.append(self.shim.program());
        r.append(" \"$@\"\n}");
        r
    }
}

/// One configuration file's worth of shims, in file order.
#[derive(Debug)]
pub struct ShimFile {
    shims: Vec<Shim>,
}

impl View for ShimFile {
    type V = Seq<ShimView>;

    closed spec fn view(&self) -> Seq<ShimView> {
        self.shims.deep_view()
    }
}

impl ShimFile {
    pub fn new(shims: Vec<Shim>) -> (r: Self)
        ensures
            r@ == shims.deep_view(),
    {
        ShimFile { shims }
    }

    /// Hands the file's shims out, in file order.
    pub fn shims(self) -> (r: Vec<Shim>)
        ensures
            r.deep_view() == self@,
    {
        self.shims
    }
}

} // verus!
