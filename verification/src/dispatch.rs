//! The hook executor and the dispatcher: turning hook bodies into command
//! lines, selecting the hooks that match an invocation, building the ordered
//! command plan, and tracking a running plan's fail-fast state.

use crate::shim::{
    spec_shell_function, HookView, ShimMetaView, ShimView, ShimWithMetaInfo, SubcommandShim,
};
use crate::text::{
    joined_args, lines_of, spec_trim, split_lines, subst, substitute_args, tokens, tokens_of, trim,
};
use vstd::prelude::*;

verus! {

/// A trimmed line that is a comment: its first character is `#`.
pub open spec fn is_comment(l: Seq<char>) -> bool {
    l.len() > 0 && l[0] == '#'
}

/// The commands one raw line contributes: none when the trimmed line is
/// empty or a comment, else the single command given by its
/// whitespace-separated tokens.
pub open spec fn line_command(l: Seq<char>) -> Seq<Seq<Seq<char>>> {
    let t = spec_trim(l);
    if t.len() == 0 || is_comment(t) {
        Seq::empty()
    } else {
        seq![tokens_of(t)]
    }
}

/// The commands a sequence of raw lines contributes, in line order.
pub open spec fn lines_commands(lines: Seq<Seq<char>>) -> Seq<Seq<Seq<char>>>
    decreases lines.len(),
{
    if lines.len() == 0 {
        Seq::empty()
    } else {
        lines_commands(lines.drop_last()) + line_command(lines.last())
    }
}

/// The command lines one hook body produces for an invocation's arguments:
/// the body with `$@` and `${@}` replaced by the arguments joined by spaces,
/// split on newlines, each line trimmed, comment and empty lines dropped,
/// and each remaining line split into tokens.
pub open spec fn spec_hook_commands(body: Seq<char>, args: Seq<Seq<char>>) -> Seq<Seq<Seq<char>>> {
    lines_commands(split_lines(subst(body, joined_args(args))))
}

/// Computes the command lines of one hook body, as `spec_hook_commands`
/// describes.
pub fn hook_command_lines(body: &str, args: &Vec<String>) -> (r: Vec<Vec<String>>)
    ensures
        r.deep_view() == spec_hook_commands(body@, args.deep_view()),
{
    let substituted = substitute_args(body, args);
    let lines = lines_of(substituted.as_str());
    let ghost lv = lines.deep_view();
    let mut r: Vec<Vec<String>> = Vec::new();
    let mut i: usize = 0;
    proof {
        assert(lv.take(0) =~= Seq::<Seq<char>>::empty());
    }
    while i < lines.len()
        invariant
            lv == lines.deep_view(),
            0 <= i <= lines.len(),
            r.deep_view() == lines_commands(lv.take(i as int)),
        decreases lines.len() - i,
    {
        let ghost prev = r.deep_view();
        let t = trim(lines[i].as_str());
        proof {
            assert(lines[i as int]@ == lv[i as int]);
            assert(t@ == spec_trim(lv[i as int]));
        }
        if !t.is_empty() && t.get_char(0) != '#' {
            let toks = tokens(t);
            r.push(toks);
            proof {
                assert(r.deep_view() =~= prev.push(toks.deep_view()));
                assert(line_command(lv[i as int]) =~= seq![tokens_of(t@)]);
            }
        } else {
            proof {
                assert(line_command(lv[i as int]) =~= Seq::<Seq<Seq<char>>>::empty());
            }
        }
        proof {
            let cur = lv.take(i + 1);
            assert(cur.drop_last() =~= lv.take(i as int));
            assert(cur.last() == lv[i as int]);
            assert(r.deep_view() =~= lines_commands(lv.take(i as int)) + line_command(
                lv[i as int],
            ));
        }
        i = i + 1;
    }
    proof {
        assert(lv.take(lines.len() as int) =~= lv);
    }
    r
}

/// Comment lines never run anything: removing a line whose trimmed form is
/// a comment leaves the commands of a hook body's lines unchanged.
pub proof fn lemma_comment_line_never_runs(lines: Seq<Seq<char>>, i: int)
    requires
        0 <= i < lines.len(),
        is_comment(spec_trim(lines[i])),
    ensures
        lines_commands(lines) == lines_commands(lines.remove(i)),
    decreases lines.len(),
{
    if i == lines.len() - 1 {
        assert(line_command(lines[i]) =~= Seq::<Seq<Seq<char>>>::empty());
        assert(lines.remove(i) =~= lines.drop_last());
        assert(lines_commands(lines) =~= lines_commands(lines.drop_last()));
    } else {
        let front = lines.drop_last();
        assert(front[i] == lines[i]);
        lemma_comment_line_never_runs(front, i);
        let shorter = lines.remove(i);
        assert(shorter.drop_last() =~= front.remove(i));
        assert(shorter.last() == lines.last());
        assert(lines_commands(shorter) == lines_commands(front.remove(i)) + line_command(
            lines.last(),
        ));
    }
}

/// The effective first-level subcommand token of an invocation: its first
/// argument, or the empty text when it has none.
pub open spec fn spec_first_token(args: Seq<Seq<char>>) -> Seq<char> {
    if args.len() == 0 {
        Seq::empty()
    } else {
        args[0]
    }
}

/// Whether a hook fires for an invocation whose first token is `first`: a
/// hook without a matcher fires on the empty token, one with matcher `s`
/// fires exactly when `first` equals `s`.
pub open spec fn hook_fires(on_subcommand: Option<Seq<char>>, first: Seq<char>) -> bool {
    match on_subcommand {
        Option::None => first.len() == 0,
        Option::Some(s) => s == first,
    }
}

/// An absent hook list is treated as empty.
pub open spec fn hooks_or_empty(hooks: Option<Seq<HookView>>) -> Seq<HookView> {
    match hooks {
        Option::Some(h) => h,
        Option::None => Seq::empty(),
    }
}

/// Whether any hook of the list fires; this decides whether override hooks
/// replace the original program.
pub open spec fn any_hook_fires(hooks: Seq<HookView>, first: Seq<char>) -> bool {
    exists|i: int| 0 <= i < hooks.len() && #[trigger] hook_fires(hooks[i].on_subcommand, first)
}

/// A hook without a matcher fires exactly when the invocation supplies no
/// argument (granted the first argument, if any, is not the empty string,
/// which the empty token could not be told from).
pub proof fn lemma_default_hook_fires(args: Seq<Seq<char>>)
    requires
        args.len() > 0 ==> args[0].len() > 0,
    ensures
        hook_fires(Option::None, spec_first_token(args)) <==> args.len() == 0,
{
}

/// A hook with a nonempty matcher `s` fires exactly when the invocation's
/// first argument exists and equals `s`.
pub proof fn lemma_subcommand_hook_fires(s: Seq<char>, args: Seq<Seq<char>>)
    requires
        s.len() > 0,
    ensures
        hook_fires(Option::Some(s), spec_first_token(args)) <==> args.len() > 0 && args[0] == s,
{
}

/// Which phase of a dispatch asked for a command.
#[derive(Clone, Copy, PartialEq, Eq, Structural, Debug)]
pub enum CommandSource {
    PreHook,
    OverrideHook,
    Program,
    PostHook,
}

/// Mathematical image of a `PlannedCommand`.
pub ghost struct PlannedCommandView {
    pub source: CommandSource,
    pub tokens: Seq<Seq<char>>,
}

/// One command of a dispatch plan: the tokens to run (command word first)
/// and which phase asked for it.
#[derive(Debug, PartialEq, Eq)]
pub struct PlannedCommand {
    pub source: CommandSource,
    pub tokens: Vec<String>,
}

impl View for PlannedCommand {
    type V = PlannedCommandView;

    open spec fn view(&self) -> PlannedCommandView {
        PlannedCommandView { source: self.source, tokens: self.tokens.deep_view() }
    }
}

impl DeepView for PlannedCommand {
    type V = PlannedCommandView;

    open spec fn deep_view(&self) -> PlannedCommandView {
        self.view()
    }
}

/// The commands, tagged with the phase that asked for them.
pub open spec fn tag_commands(cmds: Seq<Seq<Seq<char>>>, source: CommandSource) -> Seq<
    PlannedCommandView,
> {
    cmds.map_values(|t: Seq<Seq<char>>| PlannedCommandView { source, tokens: t })
}

/// The commands one hook list contributes for an invocation: the command
/// lines of each hook that fires, in hook order.
pub open spec fn phase_commands(
    hooks: Seq<HookView>,
    first: Seq<char>,
    args: Seq<Seq<char>>,
    source: CommandSource,
) -> Seq<PlannedCommandView>
    decreases hooks.len(),
{
    if hooks.len() == 0 {
        Seq::empty()
    } else {
        phase_commands(hooks.drop_last(), first, args, source) + (if hook_fires(
            hooks.last().on_subcommand,
            first,
        ) {
            tag_commands(spec_hook_commands(hooks.last().run, args), source)
        } else {
            Seq::empty()
        })
    }
}

/// The full dispatch plan for one invocation of a shimmed program: the
/// selected pre-hook commands, then the selected override commands — or the
/// original invocation itself when no override hook fires — then the
/// selected post-hook commands.
pub open spec fn spec_plan(shim: ShimView, invoked: Seq<Seq<char>>) -> Seq<PlannedCommandView>
    recommends
        invoked.len() >= 1,
{
    let args = invoked.skip(1);
    let first = spec_first_token(args);
    let pre = phase_commands(hooks_or_empty(shim.pre), first, args, CommandSource::PreHook);
    let main = if any_hook_fires(hooks_or_empty(shim.overrides), first) {
        phase_commands(hooks_or_empty(shim.overrides), first, args, CommandSource::OverrideHook)
    } else {
        seq![PlannedCommandView { source: CommandSource::Program, tokens: invoked }]
    };
    let post = phase_commands(hooks_or_empty(shim.post), first, args, CommandSource::PostHook);
    pre + main + post
}

/// With no hooks at all, dispatch degenerates to exactly one command: the
/// original program with the original arguments.
pub proof fn lemma_no_hooks_single_command(shim: ShimView, invoked: Seq<Seq<char>>)
    requires
        invoked.len() >= 1,
        hooks_or_empty(shim.pre).len() == 0,
        hooks_or_empty(shim.overrides).len() == 0,
        hooks_or_empty(shim.post).len() == 0,
    ensures
        spec_plan(shim, invoked) == seq![
            PlannedCommandView { source: CommandSource::Program, tokens: invoked },
        ],
{
    assert(spec_plan(shim, invoked) =~= seq![
        PlannedCommandView { source: CommandSource::Program, tokens: invoked },
    ]);
}

/// Every command a hook list contributes carries that list's phase tag.
proof fn lemma_phase_commands_source(
    hooks: Seq<HookView>,
    first: Seq<char>,
    args: Seq<Seq<char>>,
    source: CommandSource,
)
    ensures
        forall|k: int|
            0 <= k < phase_commands(hooks, first, args, source).len() ==> (#[trigger] phase_commands(
                hooks,
                first,
                args,
                source,
            )[k]).source == source,
    decreases hooks.len(),
{
    if hooks.len() == 0 {
    } else {
        lemma_phase_commands_source(hooks.drop_last(), first, args, source);
        let tail = if hook_fires(hooks.last().on_subcommand, first) {
            tag_commands(spec_hook_commands(hooks.last().run, args), source)
        } else {
            Seq::empty()
        };
        assert(forall|k: int| 0 <= k < tail.len() ==> (#[trigger] tail[k]).source == source);
    }
}

/// Override precedence: when some override hook fires, no command of the
/// plan is the original program — it is never invoked, even when every
/// override hook runs nothing.
pub proof fn lemma_override_precedence(shim: ShimView, invoked: Seq<Seq<char>>)
    requires
        invoked.len() >= 1,
        any_hook_fires(hooks_or_empty(shim.overrides), spec_first_token(invoked.skip(1))),
    ensures
        forall|k: int|
            0 <= k < spec_plan(shim, invoked).len() ==> (#[trigger] spec_plan(shim, invoked)[k]).source
                != CommandSource::Program,
{
    let args = invoked.skip(1);
    let first = spec_first_token(args);
    lemma_phase_commands_source(hooks_or_empty(shim.pre), first, args, CommandSource::PreHook);
    lemma_phase_commands_source(
        hooks_or_empty(shim.overrides),
        first,
        args,
        CommandSource::OverrideHook,
    );
    lemma_phase_commands_source(hooks_or_empty(shim.post), first, args, CommandSource::PostHook);
}

/// Looks a program name up among registry entries: the last entry whose
/// shim intercepts `name`, mirroring last-write-wins loading.
pub open spec fn reg_lookup(entries: Seq<ShimMetaView>, name: Seq<char>) -> Option<ShimMetaView>
    decreases entries.len(),
{
    if entries.len() == 0 {
        Option::None
    } else if entries.last().shim.program == name {
        Option::Some(entries.last())
    } else {
        reg_lookup(entries.drop_last(), name)
    }
}

/// Registry well-formedness: entries intercept pairwise distinct programs.
pub open spec fn distinct_programs(entries: Seq<ShimMetaView>) -> bool {
    forall|a: int, b: int|
        0 <= a < b < entries.len() ==> (#[trigger] entries[a]).shim.program
            != (#[trigger] entries[b]).shim.program
}

/// A name no entry intercepts is not found.
pub proof fn lemma_reg_lookup_absent(entries: Seq<ShimMetaView>, name: Seq<char>)
    requires
        forall|m: int| 0 <= m < entries.len() ==> (#[trigger] entries[m]).shim.program != name,
    ensures
        reg_lookup(entries, name) is None,
    decreases entries.len(),
{
    if entries.len() == 0 {
    } else {
        assert(forall|m: int|
            0 <= m < entries.len() - 1 ==> entries.drop_last()[m] == entries[m]);
        lemma_reg_lookup_absent(entries.drop_last(), name);
    }
}

/// With pairwise distinct programs, lookup finds exactly the one entry that
/// intercepts the name.
pub proof fn lemma_reg_lookup_found(entries: Seq<ShimMetaView>, name: Seq<char>, j: int)
    requires
        distinct_programs(entries),
        0 <= j < entries.len(),
        entries[j].shim.program == name,
    ensures
        reg_lookup(entries, name) == Option::Some(entries[j]),
    decreases entries.len(),
{
    if j == entries.len() - 1 {
    } else {
        assert(entries[j].shim.program != entries[entries.len() - 1].shim.program);
        assert(forall|m: int|
            0 <= m < entries.len() - 1 ==> entries.drop_last()[m] == entries[m]);
        lemma_reg_lookup_found(entries.drop_last(), name, j);
    }
}

/// The registry of loaded shims, keyed by the intercepted program's name.
/// Later entries for the same program replace earlier ones.
pub struct App {
    shims: Vec<ShimWithMetaInfo>,
}

impl View for App {
    type V = Seq<ShimMetaView>;

    closed spec fn view(&self) -> Seq<ShimMetaView> {
        self.shims.deep_view()
    }
}

impl App {
    /// The registry's invariant: each program has at most one entry.
    pub open spec fn wf(&self) -> bool {
        distinct_programs(self@)
    }

    /// Builds the registry from the loaded entries, in load order. A later
    /// entry for an already-present program replaces the earlier one, so a
    /// lookup lands on the entry loaded last.
    pub fn new(entries: Vec<ShimWithMetaInfo>) -> (r: App)
        ensures
            r.wf(),
            forall|name: Seq<char>| #![trigger reg_lookup(r@, name)]
                reg_lookup(r@, name) == reg_lookup(entries.deep_view(), name),
    {
        let ghost all = entries.deep_view();
        let mut rest = entries;
        let mut app = App { shims: Vec::new() };
        let ghost k: int = 0;
        proof {
            assert(app@ =~= Seq::<ShimMetaView>::empty());
            assert forall|name: Seq<char>|
                reg_lookup(app@, name) == reg_lookup(all.take(0), name) by {
                assert(all.take(0) =~= Seq::<ShimMetaView>::empty());
            }
        }
        while rest.len() > 0
            invariant
                0 <= k <= all.len(),
                rest@.len() == all.len() - k,
                forall|m: int|
                    0 <= m < all.len() - k ==> (#[trigger] rest.deep_view()[m]) == all[k + m],
                app.wf(),
                forall|name: Seq<char>| #![trigger reg_lookup(app@, name)]
                    reg_lookup(app@, name) == reg_lookup(all.take(k), name),
            decreases rest.len(),
        {
            let ghost prev_shallow = rest@;
            let ghost prev_deep = rest.deep_view();
            let e = rest.remove(0);
            proof {
                assert(prev_deep[0] == prev_shallow[0].deep_view());
                assert(e.deep_view() == all[k]);
                assert forall|m: int|
                    0 <= m < all.len() - (k + 1) implies (#[trigger] rest.deep_view()[m]) == all[k
                    + 1 + m] by {
                    assert(rest@[m] == prev_shallow[m + 1]);
                    assert(rest.deep_view()[m] == rest@[m].deep_view());
                    assert(prev_deep[m + 1] == prev_shallow[m + 1].deep_view());
                    assert(prev_deep[m + 1] == all[k + 1 + m]);
                }
            }
            app.insert_entry(e);
            proof {
                let cur = all.take(k + 1);
                assert(cur.drop_last() =~= all.take(k));
                assert(cur.last() == all[k]);
                assert forall|name: Seq<char>|
                    reg_lookup(app@, name) == reg_lookup(all.take(k + 1), name) by {
                    if name == all[k].shim.program {
                        assert(reg_lookup(cur, name) == Option::Some(all[k]));
                    } else {
                        assert(reg_lookup(cur, name) == reg_lookup(all.take(k), name));
                    }
                }
                k = k + 1;
            }
        }
        proof {
            assert(all.take(all.len() as int) =~= all);
        }
        app
    }

    /// Inserts one entry: replaces the entry of the same program if one is
    /// present, else appends.
    fn insert_entry(&mut self, e: ShimWithMetaInfo)
        requires
            old(self).wf(),
        ensures
            final(self).wf(),
            forall|name: Seq<char>| #![trigger reg_lookup(final(self)@, name)]
                reg_lookup(final(self)@, name) == (if name == e@.shim.program {
                    Option::Some(e@)
                } else {
                    reg_lookup(old(self)@, name)
                }),
    {
        let ghost prev = self@;
        let found = self.find_index(e.shim().program());
        match found {
            Option::Some(j) => {
                vstd::std_specs::core::index_set(&mut self.shims, j, e);
                proof {
                    let cur = self@;
                    assert(cur =~= prev.update(j as int, e@));
                    assert(cur[j as int] == e@);
                    assert forall|a: int, b: int| 0 <= a < b < cur.len() implies (
                    #[trigger] cur[a]).shim.program != (#[trigger] cur[b]).shim.program by {
                        assert(prev[a].shim.program != prev[b].shim.program);
                        assert(cur[a].shim.program == prev[a].shim.program || a == j);
                        assert(cur[b].shim.program == prev[b].shim.program || b == j);
                    }
                    assert forall|name: Seq<char>|
                        reg_lookup(cur, name) == (if name == e@.shim.program {
                            Option::Some(e@)
                        } else {
                            reg_lookup(prev, name)
                        }) by {
                        if name == e@.shim.program {
                            lemma_reg_lookup_found(cur, name, j as int);
                        } else {
                            if exists|m: int|
                                0 <= m < prev.len() && (#[trigger] prev[m]).shim.program == name {
                                let m = choose|m: int|
                                    0 <= m < prev.len() && (#[trigger] prev[m]).shim.program
                                        == name;
                                assert(m != j);
                                lemma_reg_lookup_found(prev, name, m);
                                lemma_reg_lookup_found(cur, name, m);
                            } else {
                                assert(forall|m: int|
                                    0 <= m < prev.len() ==> (#[trigger] prev[m]).shim.program
                                        != name);
                                lemma_reg_lookup_absent(prev, name);
                                assert(forall|m: int|
                                    0 <= m < cur.len() ==> (#[trigger] cur[m]).shim.program
                                        != name);
                                lemma_reg_lookup_absent(cur, name);
                            }
                        }
                    }
                }
            },
            Option::None => {
                self.shims.push(e);
                proof {
                    let cur = self@;
                    assert(cur =~= prev.push(e@));
                    assert(cur.drop_last() =~= prev);
                    assert(cur.last() == e@);
                    assert forall|name: Seq<char>|
                        reg_lookup(cur, name) == (if name == e@.shim.program {
                            Option::Some(e@)
                        } else {
                            reg_lookup(prev, name)
                        }) by {
                        assert(reg_lookup(cur, name) == (if e@.shim.program == name {
                            Option::Some(e@)
                        } else {
                            reg_lookup(prev, name)
                        }));
                    }
                }
            },
        }
    }

    /// The index of the entry intercepting `name`, if any.
    fn find_index(&self, name: &str) -> (r: Option<usize>)
        ensures
            match r {
                Option::Some(j) => j < self@.len() && self@[j as int].shim.program == name@,
                Option::None => forall|m: int|
                    0 <= m < self@.len() ==> (#[trigger] self@[m]).shim.program != name@,
            },
    {
        let mut i: usize = 0;
        while i < self.shims.len()
            invariant
                0 <= i <= self@.len(),
                self@.len() == self.shims@.len(),
                forall|m: int| 0 <= m < i ==> (#[trigger] self@[m]).shim.program != name@,
            decreases self@.len() - i,
        {
            if crate::text::str_eq(self.shims[i].shim().program(), name) {
                return Option::Some(i);
            }
            i = i + 1;
        }
        Option::None
    }
}

/// Why a dispatch failed.
#[derive(Clone, Copy, PartialEq, Eq, Structural, Debug)]
pub enum DispatchError {
    /// The invoked program could not be resolved on the system search path.
    ProgramNotFound,
    /// No shim in the registry intercepts the invoked program.
    NoShimRegistered,
    /// A child process could not be spawned.
    SpawnFailed,
    /// Reading a child process's output streams failed.
    StreamReadFailed,
    /// A hook command exited with the given non-zero code.
    HookFailure(i32),
    /// The original program exited with the given non-zero code.
    ExitNonZero(i32),
}

/// What running one command came to.
#[derive(Clone, Copy, PartialEq, Eq, Structural, Debug)]
pub enum ExecutionOutcome {
    /// The child ran to completion and exited with this code.
    Exited(i32),
    /// The child could not be spawned.
    SpawnFailed,
    /// The child's output streams could not be read.
    StreamReadFailed,
}

/// Only a clean zero exit counts as success.
pub open spec fn is_success(o: ExecutionOutcome) -> bool {
    o == ExecutionOutcome::Exited(0)
}

/// The dispatch error a failed command maps to: process errors keep their
/// kind; a non-zero exit is `ExitNonZero` for the original program and
/// `HookFailure` for a hook command.
pub open spec fn failure_of(source: CommandSource, o: ExecutionOutcome) -> DispatchError {
    match o {
        ExecutionOutcome::Exited(c) => if source == CommandSource::Program {
            DispatchError::ExitNonZero(c)
        } else {
            DispatchError::HookFailure(c)
        },
        ExecutionOutcome::SpawnFailed => DispatchError::SpawnFailed,
        ExecutionOutcome::StreamReadFailed => DispatchError::StreamReadFailed,
    }
}

fn failure_of_exec(source: CommandSource, o: ExecutionOutcome) -> (r: DispatchError)
    ensures
        r == failure_of(source, o),
{
    match o {
        ExecutionOutcome::Exited(c) => match source {
            CommandSource::Program => DispatchError::ExitNonZero(c),
            _ => DispatchError::HookFailure(c),
        },
        ExecutionOutcome::SpawnFailed => DispatchError::SpawnFailed,
        ExecutionOutcome::StreamReadFailed => DispatchError::StreamReadFailed,
    }
}

fn hook_fires_exec(hook: &SubcommandShim, first: &str) -> (r: bool)
    ensures
        r == hook_fires(hook@.on_subcommand, first@),
{
    match hook.on_subcommand.as_ref() {
        Option::None => first.is_empty(),
        Option::Some(s) => crate::text::str_eq(s.as_str(), first),
    }
}

fn any_hook_fires_exec(hooks: &Option<Vec<SubcommandShim>>, first: &str) -> (r: bool)
    ensures
        r == any_hook_fires(hooks_or_empty(hooks.deep_view()), first@),
{
    match hooks.as_ref() {
        Option::None => {
            proof {
                assert(!any_hook_fires(Seq::<HookView>::empty(), first@));
            }
            false
        },
        Option::Some(hs) => {
            let ghost hv = hs.deep_view();
            proof {
                assert(hooks.deep_view() == Option::Some(hv));
            }
            let mut j: usize = 0;
            while j < hs.len()
                invariant
                    hooks.deep_view() == Option::Some(hv),
                    hv == hs.deep_view(),
                    hs@.len() == hv.len(),
                    0 <= j <= hv.len(),
                    forall|m: int|
                        0 <= m < j ==> !hook_fires((#[trigger] hv[m]).on_subcommand, first@),
                decreases hv.len() - j,
            {
                proof {
                    assert(hs@[j as int].deep_view() == hv[j as int]);
                }
                if hook_fires_exec(&hs[j], first) {
                    proof {
                        assert(hook_fires(hv[j as int].on_subcommand, first@));
                        assert(hooks.deep_view() == Option::Some(hv));
                        assert(hooks_or_empty(hooks.deep_view()) == hv);
                        assert(any_hook_fires(hv, first@));
                    }
                    return true;
                }
                j = j + 1;
            }
            proof {
                assert(!any_hook_fires(hv, first@)) by {
                    if any_hook_fires(hv, first@) {
                        let i = choose|i: int|
                            0 <= i < hv.len() && #[trigger] hook_fires(
                                hv[i].on_subcommand,
                                first@,
                            );
                        assert(!hook_fires(hv[i].on_subcommand, first@));
                    }
                }
            }
            false
        },
    }
}

fn clone_strings(v: &Vec<String>) -> (r: Vec<String>)
    ensures
        r.deep_view() == v.deep_view(),
{
    let mut r: Vec<String> = Vec::new();
    let mut i: usize = 0;
    proof {
        assert(r.deep_view() =~= v.deep_view().take(0));
    }
    while i < v.len()
        invariant
            0 <= i <= v@.len(),
            r.deep_view() == v.deep_view().take(i as int),
        decreases v@.len() - i,
    {
        let ghost prev = r.deep_view();
        let c = v[i].clone();
        r.push(c);
        proof {
            assert(c@ == v@[i as int]@);
            assert(r.deep_view() =~= prev.push(c.deep_view()));
            assert(v.deep_view()[i as int] == v@[i as int].deep_view());
            assert(v.deep_view().take(i + 1) =~= prev.push(c.deep_view()));
        }
        i = i + 1;
    }
    proof {
        assert(v.deep_view().take(v@.len() as int) =~= v.deep_view());
    }
    r
}

/// Appends to `plan` the commands of each hook in the list that fires for
/// `first`, in hook order, tagged with `source`.
fn append_phase(
    plan: &mut Vec<PlannedCommand>,
    hooks: &Option<Vec<SubcommandShim>>,
    first: &str,
    args: &Vec<String>,
    source: CommandSource,
)
    ensures
        final(plan).deep_view() == old(plan).deep_view() + phase_commands(
            hooks_or_empty(hooks.deep_view()),
            first@,
            args.deep_view(),
            source,
        ),
{
    let ghost base = plan.deep_view();
    match hooks.as_ref() {
        Option::None => {
            proof {
                assert(plan.deep_view() =~= base + phase_commands(
                    hooks_or_empty(hooks.deep_view()),
                    first@,
                    args.deep_view(),
                    source,
                ));
            }
        },
        Option::Some(hs) => {
            let ghost hv = hs.deep_view();
            let mut j: usize = 0;
            proof {
                assert(hv.take(0) =~= Seq::<HookView>::empty());
                assert(plan.deep_view() =~= base + phase_commands(
                    hv.take(0),
                    first@,
                    args.deep_view(),
                    source,
                ));
            }
            while j < hs.len()
                invariant
                    hv == hs.deep_view(),
                    hs@.len() == hv.len(),
                    0 <= j <= hv.len(),
                    plan.deep_view() == base + phase_commands(
                        hv.take(j as int),
                        first@,
                        args.deep_view(),
                        source,
                    ),
                decreases hv.len() - j,
            {
                proof {
                    assert(hs@[j as int].deep_view() == hv[j as int]);
                }
                let fires = hook_fires_exec(&hs[j], first);
                let ghost before = plan.deep_view();
                if fires {
                    let mut cmds = hook_command_lines(hs[j].run.as_str(), args);
                    let ghost orig = cmds.deep_view();
                    proof {
                        assert(hs@[j as int].run@ == hv[j as int].run);
                        assert(orig == spec_hook_commands(hv[j as int].run, args.deep_view()));
                    }
                    let ghost m: int = 0;
                    proof {
                        assert(orig.take(0) =~= Seq::<Seq<Seq<char>>>::empty());
                        assert(tag_commands(orig.take(0), source) =~= Seq::<
                            PlannedCommandView,
                        >::empty());
                        assert(plan.deep_view() =~= before + tag_commands(orig.take(0), source));
                    }
                    while cmds.len() > 0
                        invariant
                            0 <= m <= orig.len(),
                            cmds@.len() == orig.len() - m,
                            forall|p: int|
                                0 <= p < orig.len() - m ==> (#[trigger] cmds.deep_view()[p])
                                    == orig[m + p],
                            plan.deep_view() == before + tag_commands(orig.take(m), source),
                        decreases cmds.len(),
                    {
                        let ghost prev_shallow = cmds@;
                        let ghost prev_deep = cmds.deep_view();
                        let ghost prev_plan = plan.deep_view();
                        let t = cmds.remove(0);
                        proof {
                            assert(prev_deep[0] == prev_shallow[0].deep_view());
                            assert(t.deep_view() == orig[m]);
                            assert forall|p: int|
                                0 <= p < orig.len() - (m + 1) implies (
                            #[trigger] cmds.deep_view()[p]) == orig[m + 1 + p] by {
                                assert(cmds@[p] == prev_shallow[p + 1]);
                                assert(cmds.deep_view()[p] == cmds@[p].deep_view());
                                assert(prev_deep[p + 1] == prev_shallow[p + 1].deep_view());
                                assert(prev_deep[p + 1] == orig[m + 1 + p]);
                            }
                        }
                        plan.push(PlannedCommand { source, tokens: t });
                        proof {
                            let tagged = PlannedCommandView { source, tokens: orig[m] };
                            assert(plan.deep_view() =~= prev_plan.push(tagged));
                            assert(tag_commands(orig.take(m + 1), source) =~= tag_commands(
                                orig.take(m),
                                source,
                            ).push(tagged));
                            m = m + 1;
                        }
                    }
                    proof {
                        assert(orig.take(orig.len() as int) =~= orig);
                        assert(plan.deep_view() == before + tag_commands(orig, source));
                    }
                }
                proof {
                    let cur = hv.take(j + 1);
                    assert(cur.drop_last() =~= hv.take(j as int));
                    assert(cur.last() == hv[j as int]);
                    let contribution = if hook_fires(hv[j as int].on_subcommand, first@) {
                        tag_commands(
                            spec_hook_commands(hv[j as int].run, args.deep_view()),
                            source,
                        )
                    } else {
                        Seq::<PlannedCommandView>::empty()
                    };
                    assert(phase_commands(cur, first@, args.deep_view(), source) == phase_commands(
                        hv.take(j as int),
                        first@,
                        args.deep_view(),
                        source,
                    ) + contribution);
                    if !fires {
                        assert(plan.deep_view() =~= before + contribution);
                    }
                    assert(plan.deep_view() =~= base + phase_commands(
                        cur,
                        first@,
                        args.deep_view(),
                        source,
                    ));
                }
                j = j + 1;
            }
            proof {
                assert(hv.take(hv.len() as int) =~= hv);
            }
        },
    }
}

impl App {
    /// Builds the dispatch plan for an invocation: looks the resolved
    /// command name up in the registry and, for the matching shim, lays out
    /// the selected pre-hook commands, then the selected override commands —
    /// or the original invocation itself when no override hook fires — then
    /// the selected post-hook commands. When no shim intercepts the name,
    /// the dispatch stops with `NoShimRegistered` (it does not fall through
    /// to running the bare program).
    pub fn build_plan(&self, command_name: &str, invoked: &Vec<String>) -> (r: Result<
        Vec<PlannedCommand>,
        DispatchError,
    >)
        requires
            self.wf(),
            invoked@.len() >= 1,
        ensures
            (match reg_lookup(self@, command_name@) {
                Option::None => r == Err::<Vec<PlannedCommand>, DispatchError>(
                    DispatchError::NoShimRegistered,
                ),
                Option::Some(entry) => r matches Ok(plan) && plan.deep_view() == spec_plan(
                    entry.shim,
                    invoked.deep_view(),
                ),
            }),
    {
        let found = self.find_index(command_name);
        match found {
            Option::None => {
                proof {
                    lemma_reg_lookup_absent(self@, command_name@);
                }
                Err(DispatchError::NoShimRegistered)
            },
            Option::Some(idx) => {
                proof {
                    lemma_reg_lookup_found(self@, command_name@, idx as int);
                }
                let entry_shim = self.shims[idx].shim();
                let ghost shim_v = self@[idx as int].shim;
                proof {
                    assert(self.shims@[idx as int].deep_view() == self@[idx as int]);
                    assert(entry_shim@ == shim_v);
                }
                let ghost invoked_v = invoked.deep_view();
                let ghost args_v = invoked_v.skip(1);
                let mut args: Vec<String> = Vec::new();
                let mut i: usize = 1;
                proof {
                    assert(args.deep_view() =~= invoked_v.subrange(1, 1));
                }
                while i < invoked.len()
                    invariant
                        invoked_v == invoked.deep_view(),
                        invoked@.len() == invoked_v.len(),
                        1 <= i <= invoked_v.len(),
                        args.deep_view() == invoked_v.subrange(1, i as int),
                    decreases invoked_v.len() - i,
                {
                    let ghost prev = args.deep_view();
                    let c = invoked[i].clone();
                    args.push(c);
                    proof {
                        assert(c@ == invoked@[i as int]@);
                        assert(args.deep_view() =~= prev.push(c.deep_view()));
                        assert(invoked_v[i as int] == invoked@[i as int].deep_view());
                        assert(invoked_v.subrange(1, i + 1) =~= prev.push(c.deep_view()));
                    }
                    i = i + 1;
                }
                proof {
                    assert(invoked_v.subrange(1, invoked_v.len() as int) =~= args_v);
                }
                let first: &str = if args.len() > 0 {
                    args[0].as_str()
                } else {
                    ""
                };
                proof {
                    if args@.len() == 0 {
                        reveal_strlit("");
                        assert(first@ =~= spec_first_token(args_v));
                    } else {
                        assert(args.deep_view()[0] == args_v[0]);
                        assert(first@ == spec_first_token(args_v));
                    }
                }
                let mut plan: Vec<PlannedCommand> = Vec::new();
                proof {
                    assert(plan.deep_view() =~= Seq::<PlannedCommandView>::empty());
                }
                let ghost pre_cmds = phase_commands(
                    hooks_or_empty(shim_v.pre),
                    first@,
                    args_v,
                    CommandSource::PreHook,
                );
                append_phase(&mut plan, entry_shim.pre_hooks(), first, &args, CommandSource::PreHook);
                proof {
                    assert(plan.deep_view() =~= pre_cmds);
                }
                let ghost main_cmds: Seq<PlannedCommandView>;
                if any_hook_fires_exec(entry_shim.overrides(), first) {
                    append_phase(
                        &mut plan,
                        entry_shim.overrides(),
                        first,
                        &args,
                        CommandSource::OverrideHook,
                    );
                    proof {
                        main_cmds = phase_commands(
                            hooks_or_empty(shim_v.overrides),
                            first@,
                            args_v,
                            CommandSource::OverrideHook,
                        );
                        assert(plan.deep_view() == pre_cmds + main_cmds);
                    }
                } else {
                    let own_tokens = clone_strings(invoked);
                    let ghost before_push = plan.deep_view();
                    plan.push(PlannedCommand { source: CommandSource::Program, tokens: own_tokens });
                    proof {
                        main_cmds = seq![
                            PlannedCommandView {
                                source: CommandSource::Program,
                                tokens: invoked_v,
                            },
                        ];
                        assert(plan.deep_view() =~= before_push.push(
                            PlannedCommandView { source: CommandSource::Program, tokens: invoked_v },
                        ));
                        assert(plan.deep_view() =~= pre_cmds + main_cmds);
                    }
                }
                let ghost post_base = plan.deep_view();
                append_phase(&mut plan, entry_shim.post_hooks(), first, &args, CommandSource::PostHook);
                proof {
                    let post_cmds = phase_commands(
                        hooks_or_empty(shim_v.post),
                        first@,
                        args_v,
                        CommandSource::PostHook,
                    );
                    assert(plan.deep_view() == (pre_cmds + main_cmds) + post_cmds);
                    assert((pre_cmds + main_cmds) + post_cmds =~= spec_plan(shim_v, invoked_v));
                }
                Ok(plan)
            },
        }
    }
}

/// One line of the listing for one hook: its matcher, if any, and its
/// command text.
pub open spec fn spec_hook_line(h: HookView) -> Seq<char> {
    ("    - ")@ + (match h.on_subcommand {
        Option::Some(s) => ("on ")@ + s + (": ")@,
        Option::None => Seq::<char>::empty(),
    }) + h.run + ("\n")@
}

/// The listing lines of a hook list, in hook order.
pub open spec fn spec_hook_lines(hooks: Seq<HookView>) -> Seq<char>
    decreases hooks.len(),
{
    if hooks.len() == 0 {
        Seq::empty()
    } else {
        spec_hook_lines(hooks.drop_last()) + spec_hook_line(hooks.last())
    }
}

/// One listing section: nothing for an absent hook list, else the header
/// followed by the hooks' lines.
pub open spec fn spec_section(header: Seq<char>, hooks: Option<Seq<HookView>>) -> Seq<char> {
    match hooks {
        Option::None => Seq::empty(),
        Option::Some(hs) => header + spec_hook_lines(hs),
    }
}

/// The listing of one registry entry: the program line and the three hook
/// sections.
pub open spec fn spec_shim_listing(s: ShimView) -> Seq<char> {
    ("> ")@ + s.program + ("\n")@ + spec_section(("  * Pre-hooks:\n")@, s.pre) + spec_section(
        ("  * Overrides:\n")@,
        s.overrides,
    ) + spec_section(("  * Post-hooks:\n")@, s.post)
}

/// The listing of the whole registry, in entry order.
pub open spec fn spec_listing(entries: Seq<ShimMetaView>) -> Seq<char>
    decreases entries.len(),
{
    if entries.len() == 0 {
        Seq::empty()
    } else {
        spec_listing(entries.drop_last()) + spec_shim_listing(entries.last().shim)
    }
}

fn append_hook_line(out: &mut String, hook: &SubcommandShim)
    ensures
        final(out)@ == old(out)@ + spec_hook_line(hook@),
{
    let ghost base = out@;
    out.append("    - ");
    match hook.on_subcommand.as_ref() {
        Option::Some(s) => {
            out.append("on ");
            out.append(s.as_str());
            out.append(": ");
        },
        Option::None => {},
    }
    out.append(hook.run.as_str());
    out.append("\n");
    proof {
        assert(out@ =~= base + spec_hook_line(hook@));
    }
}

fn append_section(out: &mut String, header: &str, hooks: &Option<Vec<SubcommandShim>>)
    ensures
        final(out)@ == old(out)@ + spec_section(header@, hooks.deep_view()),
{
    let ghost base = out@;
    match hooks.as_ref() {
        Option::None => {
            proof {
                assert(out@ =~= base + spec_section(header@, hooks.deep_view()));
            }
        },
        Option::Some(hs) => {
            let ghost hv = hs.deep_view();
            out.append(header);
            let mut j: usize = 0;
            proof {
                assert(hv.take(0) =~= Seq::<HookView>::empty());
                assert(out@ =~= base + header@ + spec_hook_lines(hv.take(0)));
            }
            while j < hs.len()
                invariant
                    hooks.deep_view() == Option::Some(hv),
                    hv == hs.deep_view(),
                    hs@.len() == hv.len(),
                    0 <= j <= hv.len(),
                    out@ == base + header@ + spec_hook_lines(hv.take(j as int)),
                decreases hv.len() - j,
            {
                proof {
                    assert(hs@[j as int].deep_view() == hv[j as int]);
                }
                append_hook_line(out, &hs[j]);
                proof {
                    let cur = hv.take(j + 1);
                    assert(cur.drop_last() =~= hv.take(j as int));
                    assert(cur.last() == hv[j as int]);
                    assert(out@ =~= base + header@ + spec_hook_lines(cur));
                }
                j = j + 1;
            }
            proof {
                assert(hv.take(hv.len() as int) =~= hv);
                assert(out@ =~= base + spec_section(header@, hooks.deep_view()));
            }
        },
    }
}

impl App {
    /// Renders the registered shims and their hooks, one program per entry,
    /// as `spec_listing` describes.
    pub fn list(&self) -> (r: String)
        ensures
            r@ == spec_listing(self@),
    {
        let mut out = String::new();
        let mut i: usize = 0;
        proof {
            assert(self@.take(0) =~= Seq::<ShimMetaView>::empty());
            assert(out@ =~= spec_listing(self@.take(0)));
        }
        while i < self.shims.len()
            invariant
                self.shims@.len() == self@.len(),
                0 <= i <= self@.len(),
                out@ == spec_listing(self@.take(i as int)),
            decreases self@.len() - i,
        {
            proof {
                assert(self.shims@[i as int].deep_view() == self@[i as int]);
            }
            let ghost base = out@;
            let entry_shim = self.shims[i].shim();
            out.append("> ");
            out.append(entry_shim.program());
            out.append("\n");
            append_section(&mut out, "  * Pre-hooks:\n", entry_shim.pre_hooks());
            append_section(&mut out, "  * Overrides:\n", entry_shim.overrides());
            append_section(&mut out, "  * Post-hooks:\n", entry_shim.post_hooks());
            proof {
                let cur = self@.take(i + 1);
                assert(cur.drop_last() =~= self@.take(i as int));
                assert(cur.last() == self@[i as int]);
                assert(out@ =~= base + spec_shim_listing(self@[i as int].shim));
                assert(out@ =~= spec_listing(cur));
            }
            i = i + 1;
        }
        proof {
            assert(self@.take(self@.len() as int) =~= self@);
        }
        out
    }

    /// Renders the shell wrapper function of every registered shim, in
    /// entry order, stamped with the given timestamp and the dispatcher's
    /// own path.
    pub fn generate_shims(&self, timestamp: &str, this_program_path: &str) -> (r: Vec<String>)
        ensures
            r@.len() == self@.len(),
            forall|i: int|
                0 <= i < self@.len() ==> (#[trigger] r.deep_view()[i]) == spec_shell_function(
                    self@[i],
                    timestamp@,
                    this_program_path@,
                ),
    {
        let mut r: Vec<String> = Vec::new();
        let mut i: usize = 0;
        while i < self.shims.len()
            invariant
                self.shims@.len() == self@.len(),
                0 <= i <= self@.len(),
                r@.len() == i,
                forall|m: int|
                    0 <= m < i ==> (#[trigger] r.deep_view()[m]) == spec_shell_function(
                        self@[m],
                        timestamp@,
                        this_program_path@,
                    ),
            decreases self@.len() - i,
        {
            let ghost prev = r.deep_view();
            let f = self.shims[i].shell_function(timestamp, this_program_path);
            r.push(f);
            proof {
                assert(self.shims@[i as int].deep_view() == self@[i as int]);
                assert(r.deep_view() =~= prev.push(f@));
            }
            i = i + 1;
        }
        r
    }
}

/// The state of one dispatch as its plan runs: the plan, how far it has
/// come, and the failure that stopped it, if one has.
pub struct DispatchRun {
    commands: Vec<PlannedCommand>,
    next_idx: usize,
    failure: Option<DispatchError>,
}

impl DispatchRun {
    /// The plan being run.
    pub closed spec fn commands_view(&self) -> Seq<PlannedCommandView> {
        self.commands.deep_view()
    }

    /// How many commands have completed successfully.
    pub closed spec fn position(&self) -> int {
        self.next_idx as int
    }

    /// The failure that stopped the run, if one has.
    pub closed spec fn failure_view(&self) -> Option<DispatchError> {
        self.failure
    }

    pub open spec fn wf(&self) -> bool {
        0 <= self.position() <= self.commands_view().len()
    }

    /// The command to run next: none once the plan is exhausted or a
    /// failure has been recorded.
    pub open spec fn pending(&self) -> Option<PlannedCommandView> {
        if self.failure_view() is Some || self.position() >= self.commands_view().len() {
            Option::None
        } else {
            Option::Some(self.commands_view()[self.position()])
        }
    }

    /// Starts a run of the given plan at its first command.
    pub fn new(plan: Vec<PlannedCommand>) -> (r: DispatchRun)
        ensures
            r.wf(),
            r.commands_view() == plan.deep_view(),
            r.position() == 0,
            r.failure_view() is None,
    {
        DispatchRun { commands: plan, next_idx: 0, failure: Option::None }
    }

    /// The command to run next, as `pending` describes.
    pub fn next_command(&self) -> (r: Option<&PlannedCommand>)
        ensures
            (match r {
                Option::Some(c) => self.pending() == Option::Some(c.deep_view()),
                Option::None => self.pending() is None,
            }),
    {
        if self.failure.is_some() {
            Option::None
        } else if self.next_idx < self.commands.len() {
            proof {
                assert(self.commands@[self.next_idx as int].deep_view() == self.commands_view()[
                    self.position()]);
            }
            Option::Some(&self.commands[self.next_idx])
        } else {
            Option::None
        }
    }

    /// Records the outcome of the pending command: a success moves the run
    /// to the next command, anything else stops it with the corresponding
    /// dispatch error. Once a failure is recorded, `pending` stays `None`,
    /// so no later command of the plan — in particular no command of a later
    /// phase — is ever issued.
    pub fn report(&mut self, outcome: ExecutionOutcome)
        requires
            old(self).wf(),
            old(self).pending() is Some,
        ensures
            final(self).wf(),
            final(self).commands_view() == old(self).commands_view(),
            is_success(outcome) ==> final(self).position() == old(self).position() + 1
                && final(self).failure_view() is None,
            !is_success(outcome) ==> final(self).position() == old(self).position()
                && (match old(self).pending() {
                Option::Some(c) => final(self).failure_view() == Option::Some(
                    failure_of(c.source, outcome),
                ),
                Option::None => false,
            }),
    {
        let success = match outcome {
            ExecutionOutcome::Exited(c) => c == 0,
            _ => false,
        };
        if success {
            proof {
                assert(self.commands_view().len() == self.commands@.len());
                assert(self.next_idx < self.commands.len());
            }
            self.next_idx = self.next_idx + 1;
        } else {
            proof {
                assert(self.commands@[self.next_idx as int].deep_view() == self.commands_view()[
                    self.position()]);
            }
            let src = self.commands[self.next_idx].source;
            self.failure = Option::Some(failure_of_exec(src, outcome));
        }
    }

    /// The run's verdict once no command is pending: the recorded failure,
    /// or success when the whole plan completed.
    pub fn conclusion(&self) -> (r: Result<(), DispatchError>)
        requires
            self.pending() is None,
        ensures
            (match self.failure_view() {
                Option::Some(e) => r == Err::<(), DispatchError>(e),
                Option::None => r == Ok::<(), DispatchError>(()),
            }),
    {
        match &self.failure {
            Option::Some(e) => Err(*e),
            Option::None => Ok(()),
        }
    }
}

/// Fail-fast: once a failure is recorded, the run issues no further
/// commands — later lines of the failing hook and all later phases are
/// never executed.
pub proof fn lemma_fail_fast(r: DispatchRun)
    requires
        r.failure_view() is Some,
    ensures
        r.pending() is None,
{
}

} // verus!
