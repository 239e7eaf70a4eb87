//! Turning a stored shortcut into a concrete invocation.
//!
//! Paths are modelled as character sequences with the POSIX syntax: a path
//! is absolute when its first character is `/`, and a path's parent is what
//! remains after its last component is dropped. Whether a path names an
//! existing directory or file is a question only the filesystem can answer;
//! every function here takes those answers as arguments, so its contract
//! holds whatever the filesystem says. Spawning the resulting invocation is
//! likewise the host program's job.

use vstd::prelude::*;

use crate::errors::Error;
use crate::shortcut::Shortcut;

verus! {

/// A concrete process invocation: a program and its argument list. The host
/// spawns it with inherited standard streams and blocks until it exits.
#[derive(Debug)]
pub struct Invocation {
    pub program: String,
    pub args: Vec<String>,
}

/// The mathematical model of an [`Invocation`].
#[verifier::ext_equal]
pub struct InvocationModel {
    pub program: Seq<char>,
    pub args: Seq<Seq<char>>,
}

impl View for Invocation {
    type V = InvocationModel;

    open spec fn view(&self) -> InvocationModel {
        InvocationModel { program: self.program@, args: self.args.deep_view() }
    }
}

impl DeepView for Invocation {
    type V = InvocationModel;

    open spec fn deep_view(&self) -> InvocationModel {
        self.view()
    }
}

/// A path is absolute when it is rooted at `/`.
pub open spec fn spec_is_absolute(p: Seq<char>) -> bool {
    p.len() > 0 && p[0] == '/'
}

/// Whether `p` is an absolute path.
pub fn is_absolute(p: &str) -> (r: bool)
    ensures
        r == spec_is_absolute(p@),
{
    let n = p.unicode_len();
    n > 0 && p.get_char(0) == '/'
}

/// How one command token is normalized at add and update time: an absolute
/// path is kept verbatim, whether or not it names an existing entry; a relative
/// token that the filesystem resolves (its canonical form is `Some`) is
/// rewritten to that canonical form; any other token — a bare program name
/// looked up on the search path at run time, a dangling relative path — is
/// kept unchanged. A token is never dropped.
pub open spec fn spec_normalize_token(t: Seq<char>, canon: Option<Seq<char>>) -> Seq<char> {
    if spec_is_absolute(t) {
        t
    } else {
        match canon {
            Some(c) => c,
            None => t,
        }
    }
}

/// Normalizes one command token; `canonical` is the canonical absolute form
/// the filesystem reports for the token, or `None` when the token does not
/// resolve to an existing entry.
pub fn normalize_token(token: &String, canonical: Option<&String>) -> (r: String)
    ensures
        r@ == spec_normalize_token(token@, canonical.deep_view()),
{
    if is_absolute(token.as_str()) {
        token.clone()
    } else {
        match canonical {
            Some(c) => c.clone(),
            None => token.clone(),
        }
    }
}

/// Token-wise normalization of a whole command, given the canonical form
/// the filesystem reports for each token (`None` where the token does not
/// resolve).
pub open spec fn spec_normalize_command(
    cmd: Seq<Seq<char>>,
    canon: Seq<Option<Seq<char>>>,
) -> Seq<Seq<char>> {
    Seq::new(cmd.len(), |i: int| spec_normalize_token(cmd[i], canon[i]))
}

/// Normalizes every token of a command; `canonical` holds the filesystem's
/// canonicalization answer for each token in turn.
pub fn normalize_command(command: Vec<String>, canonical: &Vec<Option<String>>) -> (r: Vec<
    String,
>)
    requires
        canonical.deep_view().len() == command.deep_view().len(),
    ensures
        r.deep_view() == spec_normalize_command(command.deep_view(), canonical.deep_view()),
{
    let ghost cmd_model = command.deep_view();
    let ghost canon_model = canonical.deep_view();
    let mut normalized: Vec<String> = Vec::new();
    let mut i: usize = 0;
    while i < command.len()
        invariant
            command.deep_view() == cmd_model,
            canonical.deep_view() == canon_model,
            canon_model.len() == cmd_model.len(),
            0 <= i <= cmd_model.len(),
            normalized.deep_view() == spec_normalize_command(cmd_model, canon_model).take(i as int),
        decreases command.len() - i,
    {
        let token: &String = &command[i];
        assert(token@ == cmd_model[i as int]);
        let canon_i: Option<&String> = canonical[i].as_ref();
        assert(canon_i.deep_view() == canon_model[i as int]);
        let ghost pre = normalized.deep_view();
        let tok = normalize_token(token, canon_i);
        assert(tok@ == spec_normalize_token(cmd_model[i as int], canon_model[i as int]));
        normalized.push(tok);
        assert(normalized.deep_view() =~= pre.push(tok@));
        assert(normalized.deep_view() =~= spec_normalize_command(cmd_model, canon_model).take(
            i + 1,
        ));
        i += 1;
    }
    assert(normalized.deep_view() =~= spec_normalize_command(cmd_model, canon_model));
    normalized
}

/// Normalization settles after one application: an absolute path is kept
/// unchanged, and normalizing a second time (under any filesystem answers)
/// yields what one application did, provided the canonical forms the
/// filesystem reports are themselves absolute — as canonical paths are.
pub proof fn lemma_normalize_idempotent(
    t: Seq<char>,
    c1: Option<Seq<char>>,
    c2: Option<Seq<char>>,
)
    requires
        c1 is Some ==> spec_is_absolute(c1->0),
    ensures
        spec_is_absolute(t) ==> spec_normalize_token(t, c1) == t,
        (spec_is_absolute(t) || c1 is Some) ==> spec_normalize_token(
            spec_normalize_token(t, c1),
            c2,
        ) == spec_normalize_token(t, c1),
{
}

/// `p` with its trailing `/` characters removed.
pub open spec fn strip_trailing_slashes(p: Seq<char>) -> Seq<char>
    decreases p.len(),
{
    if p.len() > 0 && p.last() == '/' {
        strip_trailing_slashes(p.drop_last())
    } else {
        p
    }
}

/// `t` with its trailing run of non-`/` characters removed.
pub open spec fn drop_last_component(t: Seq<char>) -> Seq<char>
    decreases t.len(),
{
    if t.len() > 0 && t.last() != '/' {
        drop_last_component(t.drop_last())
    } else {
        t
    }
}

/// The parent directory of `p`, or `None` when `p` has none (it is empty or
/// the root). A lone component has parent `""`, the empty path, as the
/// platform's path type has it.
pub open spec fn spec_parent(p: Seq<char>) -> Option<Seq<char>> {
    let t = strip_trailing_slashes(p);
    if t.len() == 0 {
        None
    } else {
        let u = strip_trailing_slashes(drop_last_component(t));
        if drop_last_component(t).len() == 0 {
            Some(Seq::<char>::empty())
        } else if u.len() == 0 {
            Some(seq!['/'])
        } else {
            Some(u)
        }
    }
}

/// The parent directory of `p` as [`spec_parent`] defines it.
pub fn path_parent(p: &str) -> (r: Option<String>)
    ensures
        r.deep_view() == spec_parent(p@),
{
    let n = p.unicode_len();
    assert(p@.take(n as int) =~= p@);
    let mut end: usize = n;
    while end > 0 && p.get_char(end - 1) == '/'
        invariant
            end <= n,
            n == p@.len(),
            strip_trailing_slashes(p@) == strip_trailing_slashes(p@.take(end as int)),
        decreases end,
    {
        proof {
            assert(p@.take(end as int).drop_last() =~= p@.take(end - 1));
        }
        end -= 1;
    }
    assert(strip_trailing_slashes(p@) == p@.take(end as int));
    if end == 0 {
        return None;
    }
    let ghost t = p@.take(end as int);
    let mut k: usize = end;
    while k > 0 && p.get_char(k - 1) != '/'
        invariant
            k <= end,
            end <= n,
            n == p@.len(),
            drop_last_component(p@.take(end as int)) == drop_last_component(p@.take(k as int)),
        decreases k,
    {
        proof {
            assert(p@.take(k as int).drop_last() =~= p@.take(k - 1));
        }
        k -= 1;
    }
    assert(drop_last_component(t) == p@.take(k as int));
    if k == 0 {
        let r = String::new();
        assert(r@ =~= Seq::<char>::empty());
        return Some(r);
    }
    let mut e2: usize = k;
    while e2 > 0 && p.get_char(e2 - 1) == '/'
        invariant
            e2 <= k,
            k <= n,
            n == p@.len(),
            strip_trailing_slashes(p@.take(k as int)) == strip_trailing_slashes(
                p@.take(e2 as int),
            ),
        decreases e2,
    {
        proof {
            assert(p@.take(e2 as int).drop_last() =~= p@.take(e2 - 1));
        }
        e2 -= 1;
    }
    assert(strip_trailing_slashes(p@.take(k as int)) == p@.take(e2 as int));
    if e2 == 0 {
        let r = String::from_str("/");
        proof {
            reveal_strlit("/");
        }
        assert(r@ =~= seq!['/']);
        Some(r)
    } else {
        let r = String::from_str(p.substring_char(0, e2));
        assert(r@ =~= p@.take(e2 as int));
        Some(r)
    }
}

/// The directory a path token stands for: the token itself when the
/// filesystem says it is a directory (`is_dir`), its parent otherwise;
/// `NotFoundError` when it has no parent.
pub fn dir_or_parent(path: &str, is_dir: bool) -> (r: Result<String, Error>)
    ensures
        is_dir ==> (r matches Ok(d) && d@ == path@),
        !is_dir ==> match spec_parent(path@) {
            Some(d) => r matches Ok(s) && s@ == d,
            None => r == Result::<String, Error>::Err(Error::NotFoundError),
        },
{
    if is_dir {
        Ok(path.to_owned())
    } else {
        match path_parent(path) {
            Some(d) => Ok(d),
            None => Err(Error::NotFoundError),
        }
    }
}

/// The directory a shortcut's project lives in, used both to open the
/// project folder and as the working directory of the git sequence: the
/// first command token itself when the filesystem says it is a directory
/// (`first_is_dir`), its parent otherwise. Fails with `NotFoundError` when
/// the shortcut holds no token at all or the token has no parent.
pub fn resolve_project_dir(shortcut: &Shortcut, first_is_dir: bool) -> (r: Result<String, Error>)
    ensures
        shortcut@.command.len() == 0 ==> r == Result::<String, Error>::Err(Error::NotFoundError),
        shortcut@.command.len() > 0 && first_is_dir ==> (r matches Ok(d) && d@
            == shortcut@.command[0]),
        shortcut@.command.len() > 0 && !first_is_dir ==> match spec_parent(shortcut@.command[0]) {
            Some(d) => r matches Ok(s) && s@ == d,
            None => r == Result::<String, Error>::Err(Error::NotFoundError),
        },
{
    if shortcut.run_command.len() == 0 {
        return Err(Error::NotFoundError);
    }
    let first: &String = &shortcut.run_command[0];
    assert(first@ == shortcut@.command[0]);
    dir_or_parent(first.as_str(), first_is_dir)
}

/// An operating-system family, as far as the file opener cares.
#[derive(Clone, Copy, Debug, PartialEq, Eq, Structural)]
pub enum Platform {
    Windows,
    MacOs,
    Linux,
    Other,
}

/// The platform's file-manager-open program: `explorer` on Windows, `open`
/// on macOS, `xdg-open` on Linux; any other platform has none and gets
/// `UnsupportedPlatformError`.
pub fn opener_program(platform: Platform) -> (r: Result<&'static str, Error>)
    ensures
        platform is Windows ==> (r matches Ok(s) && s@ == "explorer"@),
        platform is MacOs ==> (r matches Ok(s) && s@ == "open"@),
        platform is Linux ==> (r matches Ok(s) && s@ == "xdg-open"@),
        platform is Other ==> r == Result::<&'static str, Error>::Err(
            Error::UnsupportedPlatformError,
        ),
{
    match platform {
        Platform::Windows => Ok("explorer"),
        Platform::MacOs => Ok("open"),
        Platform::Linux => Ok("xdg-open"),
        Platform::Other => Err(Error::UnsupportedPlatformError),
    }
}

/// Splits a stored command into program and arguments and appends the
/// caller's extra arguments after the stored ones. An empty command cannot
/// be run and gets `ExecutionError`.
pub fn resolve_run(shortcut: &Shortcut, extra_args: Vec<String>) -> (r: Result<Invocation, Error>)
    ensures
        shortcut@.command.len() == 0 ==> r == Result::<Invocation, Error>::Err(
            Error::ExecutionError,
        ),
        shortcut@.command.len() > 0 ==> (r matches Ok(inv) && inv@.program == shortcut@.command[0]
            && inv@.args == shortcut@.command.skip(1) + extra_args.deep_view()),
{
    if shortcut.run_command.len() == 0 {
        return Err(Error::ExecutionError);
    }
    let program = shortcut.run_command[0].clone();
    assert(program@ == shortcut@.command[0]);
    let mut args: Vec<String> = Vec::new();
    let mut i: usize = 1;
    while i < shortcut.run_command.len()
        invariant
            1 <= i <= shortcut.run_command@.len(),
            args.deep_view() == shortcut@.command.subrange(1, i as int),
        decreases shortcut.run_command@.len() - i,
    {
        let tok = shortcut.run_command[i].clone();
        assert(tok@ == shortcut@.command[i as int]);
        let ghost pre = args.deep_view();
        args.push(tok);
        assert(args.deep_view() =~= pre.push(tok@));
        assert(args.deep_view() =~= shortcut@.command.subrange(1, i + 1));
        i += 1;
    }
    assert(args.deep_view() == shortcut@.command.skip(1));
    let mut extra = extra_args;
    let ghost extra_model = extra.deep_view();
    args.append(&mut extra);
    assert(args.deep_view() =~= shortcut@.command.skip(1) + extra_model);
    let inv = Invocation { program, args };
    Ok(inv)
}

/// The tokens of `cmd` whose flag is set, in order: the files the open-file
/// action will hand to the platform opener.
pub open spec fn spec_selected(cmd: Seq<Seq<char>>, flags: Seq<bool>) -> Seq<Seq<char>>
    decreases cmd.len(),
{
    if cmd.len() == 0 {
        Seq::empty()
    } else {
        let p = spec_selected(cmd.drop_last(), flags.drop_last());
        if flags.len() > 0 && flags[cmd.len() - 1] {
            p.push(cmd.last())
        } else {
            p
        }
    }
}

/// The command tokens that name existing regular files, in command order;
/// `is_file[i]` is the filesystem's answer for token `i`. Tokens whose flag
/// is unset are skipped, not an error: with no flag set the result is empty
/// and the action degenerates to a no-op.
pub fn files_to_open(command: &Vec<String>, is_file: &Vec<bool>) -> (r: Vec<String>)
    requires
        is_file@.len() == command@.len(),
    ensures
        r.deep_view() == spec_selected(command.deep_view(), is_file@),
{
    let ghost cmd_model = command.deep_view();
    let ghost flags = is_file@;
    let mut r: Vec<String> = Vec::new();
    let mut i: usize = 0;
    assert(r.deep_view() =~= spec_selected(cmd_model.take(0), flags.take(0)));
    while i < command.len()
        invariant
            cmd_model == command.deep_view(),
            flags == is_file@,
            flags.len() == cmd_model.len(),
            i <= cmd_model.len(),
            r.deep_view() == spec_selected(cmd_model.take(i as int), flags.take(i as int)),
        decreases command@.len() - i,
    {
        proof {
            assert(cmd_model.take(i + 1).drop_last() =~= cmd_model.take(i as int));
            assert(flags.take(i + 1).drop_last() =~= flags.take(i as int));
            assert(cmd_model.take(i + 1).last() == cmd_model[i as int]);
            assert(flags.take(i + 1)[cmd_model.take(i + 1).len() - 1] == flags[i as int]);
        }
        if is_file[i] {
            let tok = command[i].clone();
            assert(tok@ == cmd_model[i as int]);
            r.push(tok);
            assert(r.deep_view() =~= spec_selected(cmd_model.take(i + 1), flags.take(i + 1)));
        } else {
            assert(r.deep_view() =~= spec_selected(cmd_model.take(i + 1), flags.take(i + 1)));
        }
        i += 1;
    }
    assert(cmd_model.take(cmd_model.len() as int) =~= cmd_model);
    assert(flags.take(flags.len() as int) =~= flags);
    r
}

/// The three git invocations of the commit-and-push sequence, in order:
/// stage everything, commit with the given message, push. The host runs
/// each to completion in the resolved project directory.
pub fn git_push_commands(commit_message: &str) -> (r: Vec<Invocation>)
    ensures
        r.deep_view() == seq![
            InvocationModel { program: "git"@, args: seq!["add"@, "."@] },
            InvocationModel { program: "git"@, args: seq!["commit"@, "-m"@, commit_message@] },
            InvocationModel { program: "git"@, args: seq!["push"@] },
        ],
{
    let add_args = vec!["add".to_owned(), ".".to_owned()];
    let commit_args = vec!["commit".to_owned(), "-m".to_owned(), commit_message.to_owned()];
    let push_args = vec!["push".to_owned()];
    let stage = Invocation { program: "git".to_owned(), args: add_args };
    let commit = Invocation { program: "git".to_owned(), args: commit_args };
    let push = Invocation { program: "git".to_owned(), args: push_args };
    let r = vec![stage, commit, push];
    assert(r.deep_view() =~~= seq![
        InvocationModel { program: "git"@, args: seq!["add"@, "."@] },
        InvocationModel { program: "git"@, args: seq!["commit"@, "-m"@, commit_message@] },
        InvocationModel { program: "git"@, args: seq!["push"@] },
    ]);
    r
}

} // verus!
