//! Deciding how to refresh bar / wallpaper layer-shell clients after a
//! monitor reconfigure.
//!
//! A resolution or scale change makes Hyprland recreate the `wl_output`, and
//! the layer surfaces of bars and wallpaper daemons go with it. Known clients
//! are nudged deterministically: a reload signal where the client documents
//! one (waybar), otherwise kill-and-respawn from the client's own argv.
//! Clients that heal themselves (swww) or are unsafe to re-exec (eww) are not
//! on the list and are left alone.
use vstd::prelude::*;
use crate::names::str_eq;
use crate::parse::{trim_text, trimmed};
use crate::text::{int_digits, push_i64};

verus! {

/// `SIGUSR2` on Linux: waybar reloads every bar on it.
pub const SIGUSR2: i32 = 12;

/// A running process, reduced to what is needed to recognise and refresh it.
#[derive(Debug, Clone, PartialEq, Eq)]
pub struct ProcInfo {
    pub pid: i32,
    /// `/proc/<pid>/comm`.
    pub comm: String,
    /// `/proc/<pid>/cmdline` split on NULs.
    pub argv: Vec<String>,
}

/// What to do to one recognised client.
#[derive(Debug, Clone, PartialEq, Eq)]
pub enum RefreshAction {
    Signal { pid: i32, signal: i32, client: &'static str },
    Restart { pid: i32, argv: Vec<String>, client: &'static str },
}

/// A process as plain values.
pub struct ProcView {
    pub pid: i32,
    pub comm: Seq<char>,
    pub argv: Seq<Seq<char>>,
}

/// An action as plain values.
pub enum ActionView {
    Signal { pid: i32, signal: i32, client: Seq<char> },
    Restart { pid: i32, argv: Seq<Seq<char>>, client: Seq<char> },
}

impl View for ProcInfo {
    type V = ProcView;

    open spec fn view(&self) -> ProcView {
        ProcView {
            pid: self.pid,
            comm: self.comm@,
            argv: self.argv@.map_values(|s: String| s@),
        }
    }
}

impl View for RefreshAction {
    type V = ActionView;

    open spec fn view(&self) -> ActionView {
        match self {
            RefreshAction::Signal { pid, signal, client } => ActionView::Signal {
                pid: *pid,
                signal: *signal,
                client: client@,
            },
            RefreshAction::Restart { pid, argv, client } => ActionView::Restart {
                pid: *pid,
                argv: argv@.map_values(|s: String| s@),
                client: client@,
            },
        }
    }
}

/// The text `String::from_utf8_lossy` makes of `bytes`.
pub uninterp spec fn utf8_lossy(bytes: Seq<u8>) -> Seq<char>;

/// `String::from_utf8_lossy`: the bytes decoded as UTF-8, each invalid
/// sequence replaced by U+FFFD; the result depends on the bytes alone.
#[verifier::external_body]
fn lossy_text(bytes: &[u8]) -> (s: String)
    ensures
        s@ == utf8_lossy(bytes@),
{
    String::from_utf8_lossy(bytes).into_owned()
}

/// Splitting NUL-separated bytes, scanned left to right: the non-empty
/// fields completed so far, and the field under way.
pub open spec fn nul_split(bytes: Seq<u8>) -> (Seq<Seq<u8>>, Seq<u8>)
    decreases bytes.len(),
{
    if bytes.len() == 0 {
        (Seq::empty(), Seq::empty())
    } else {
        let (done, cur) = nul_split(bytes.drop_last());
        if bytes.last() == 0 {
            if cur.len() > 0 {
                (done.push(cur), Seq::empty())
            } else {
                (done, Seq::empty())
            }
        } else {
            (done, cur.push(bytes.last()))
        }
    }
}

/// The non-empty NUL-separated fields of `bytes`, in order: the arguments
/// in a `/proc/<pid>/cmdline`.
pub open spec fn cmdline_fields(bytes: Seq<u8>) -> Seq<Seq<u8>> {
    let (done, cur) = nul_split(bytes);
    if cur.len() > 0 {
        done.push(cur)
    } else {
        done
    }
}

/// The arguments of a `/proc/<pid>/cmdline`: its non-empty NUL-separated
/// fields, each decoded as UTF-8 (invalid sequences replaced).
pub fn cmdline_args(bytes: &[u8]) -> (args: Vec<String>)
    ensures
        args@.map_values(|a: String| a@) == cmdline_fields(bytes@).map_values(|f: Seq<u8>| utf8_lossy(f)),
{
    let mut fields: Vec<Vec<u8>> = Vec::new();
    let mut cur: Vec<u8> = Vec::new();
    let mut i: usize = 0;
    while i < bytes.len()
        invariant
            i <= bytes.len(),
            (fields@.map_values(|f: Vec<u8>| f@), cur@) == nul_split(bytes@.subrange(0, i as int)),
        decreases bytes.len() - i,
    {
        let b = bytes[i];
        let ghost before = fields@;
        proof {
            let t = bytes@.subrange(0, i as int + 1);
            assert(t.drop_last() =~= bytes@.subrange(0, i as int));
            assert(t.last() == b);
        }
        if b == 0 {
            if cur.len() > 0 {
                let done = cur;
                cur = Vec::new();
                fields.push(done);
                assert(fields@.map_values(|f: Vec<u8>| f@) =~= before.map_values(|f: Vec<u8>| f@).push(done@));
            } else {
                cur = Vec::new();
            }
            assert(cur@ =~= Seq::<u8>::empty());
        } else {
            cur.push(b);
        }
        i = i + 1;
    }
    proof {
        assert(bytes@.subrange(0, bytes.len() as int) =~= bytes@);
    }
    if cur.len() > 0 {
        let ghost before = fields@;
        fields.push(cur);
        assert(fields@.map_values(|f: Vec<u8>| f@) =~= before.map_values(|f: Vec<u8>| f@).push(fields@[fields@.len() - 1]@));
    }
    let ghost fv = fields@.map_values(|f: Vec<u8>| f@);
    assert(fv == cmdline_fields(bytes@));
    let mut args: Vec<String> = Vec::new();
    let mut k: usize = 0;
    while k < fields.len()
        invariant
            k <= fields.len(),
            fv == fields@.map_values(|f: Vec<u8>| f@),
            args@.map_values(|a: String| a@) == fv.subrange(0, k as int).map_values(|f: Seq<u8>| utf8_lossy(f)),
        decreases fields.len() - k,
    {
        let a = lossy_text(fields[k].as_slice());
        assert(fv[k as int] == fields@[k as int]@);
        assert(a@ == utf8_lossy(fv[k as int]));
        let ghost before = args@;
        args.push(a);
        assert(args@.map_values(|a: String| a@) =~= before.map_values(|a: String| a@).push(utf8_lossy(fv[k as int])));
        assert(fv.subrange(0, k as int + 1) =~= fv.subrange(0, k as int).push(fv[k as int]));
        assert(args@.map_values(|a: String| a@) =~= fv.subrange(0, k as int + 1).map_values(
            |f: Seq<u8>| utf8_lossy(f),
        ));
        k = k + 1;
    }
    assert(fv.subrange(0, fields.len() as int) =~= fv);
    args
}

/// The process as `/proc` shows it, from its pid, the text of its `comm`
/// file and the bytes of its `cmdline`: `comm` trimmed and the arguments
/// split out; `None` (skip it) when both come out empty.
pub fn process_entry(pid: i32, comm_raw: &str, cmdline: &[u8]) -> (p: Option<ProcInfo>)
    ensures
        (match p {
            Some(info) => info@ == (ProcView {
                pid,
                comm: trim_text(comm_raw@),
                argv: cmdline_fields(cmdline@).map_values(|f: Seq<u8>| utf8_lossy(f)),
            }),
            None => trim_text(comm_raw@).len() == 0 && cmdline_fields(cmdline@).len() == 0,
        }),
{
    let comm = trimmed(comm_raw);
    let argv = cmdline_args(cmdline);
    if comm.unicode_len() == 0 && argv.len() == 0 {
        assert(cmdline_fields(cmdline@).map_values(|f: Seq<u8>| utf8_lossy(f)).len() == 0);
        return None;
    }
    Some(ProcInfo { pid, comm, argv })
}

/// How a known client is refreshed.
#[derive(Debug, Clone, Copy, PartialEq, Eq, Structural)]
pub enum Handling {
    /// Send a signal; the client reloads in place.
    Reload(i32),
    /// Kill and re-spawn from its own argv.
    Restart,
}

/// The clients that are refreshed, in the order they are looked up.
pub open spec fn known_names() -> Seq<Seq<char>> {
    seq![
        "waybar"@,
        "swaybg"@,
        "hyprpaper"@,
        "mpvpaper"@,
        "wpaperd"@,
        "hyprpanel"@,
        "ironbar"@,
    ]
}

fn known_name(i: usize) -> (s: &'static str)
    requires
        i < 7,
    ensures
        s@ == known_names()[i as int],
{
    if i == 0 {
        "waybar"
    } else if i == 1 {
        "swaybg"
    } else if i == 2 {
        "hyprpaper"
    } else if i == 3 {
        "mpvpaper"
    } else if i == 4 {
        "wpaperd"
    } else if i == 5 {
        "hyprpanel"
    } else {
        "ironbar"
    }
}

/// The part of a path after its last `/` (all of it when there is none).
pub open spec fn basename_text(path: Seq<char>) -> Seq<char>
    decreases path.len(),
{
    if path.len() == 0 {
        path
    } else if path.last() == '/' {
        Seq::empty()
    } else {
        basename_text(path.drop_last()).push(path.last())
    }
}

proof fn lemma_basename_suffix(path: Seq<char>, j: int)
    requires
        0 <= j <= path.len(),
        j == 0 || path[j - 1] == '/',
        forall|k: int| j <= k < path.len() ==> path[k] != '/',
    ensures
        basename_text(path) == path.subrange(j, path.len() as int),
    decreases path.len(),
{
    if path.len() > j {
        lemma_basename_suffix(path.drop_last(), j);
        assert(path.subrange(j, path.len() as int) =~= path.drop_last().subrange(
            j,
            path.len() - 1,
        ).push(path.last()));
    } else if j > 0 {
        assert(path.last() == '/');
        assert(path.subrange(j, path.len() as int) =~= Seq::<char>::empty());
    } else {
        assert(path.subrange(j, path.len() as int) =~= path);
    }
}

/// The part of `path` after its last `/`.
pub fn basename(path: &str) -> (b: &str)
    ensures
        b@ == basename_text(path@),
{
    let n = path.unicode_len();
    let mut j = n;
    while j > 0 && path.get_char(j - 1) != '/'
        invariant
            n == path@.len(),
            j <= n,
            forall|k: int| j <= k < n ==> path@[k] != '/',
        decreases j,
    {
        j = j - 1;
    }
    proof {
        lemma_basename_suffix(path@, j as int);
    }
    path.substring_char(j, n)
}

/// The first known client (in `known_names` order from index `from`) whose
/// name is the process's `comm` or the basename of its `argv[0]`.
pub open spec fn first_known_from(p: ProcView, from: int) -> Option<Seq<char>>
    decreases 7 - from,
{
    if from >= 7 || from < 0 {
        None
    } else {
        let k = known_names()[from];
        if p.comm == k || (p.argv.len() > 0 && basename_text(p.argv[0]) == k) {
            Some(k)
        } else {
            first_known_from(p, from + 1)
        }
    }
}

/// The known client a process is, if any.
pub open spec fn canonical_client(p: ProcView) -> Option<Seq<char>> {
    first_known_from(p, 0)
}

/// The action for one process: a `SIGUSR2` reload for waybar, a restart
/// from its argv for the other known clients (none when the argv is empty,
/// as the client could not be brought back), nothing for unknown processes.
pub open spec fn action_for(p: ProcView) -> Seq<ActionView> {
    match canonical_client(p) {
        None => Seq::empty(),
        Some(client) => if client == "waybar"@ {
            seq![ActionView::Signal { pid: p.pid, signal: SIGUSR2, client }]
        } else if p.argv.len() == 0 {
            Seq::empty()
        } else {
            seq![ActionView::Restart { pid: p.pid, argv: p.argv, client }]
        },
    }
}

/// The actions for every process, in process order.
pub open spec fn refresh_plan(procs: Seq<ProcView>) -> Seq<ActionView>
    decreases procs.len(),
{
    if procs.len() == 0 {
        Seq::empty()
    } else {
        refresh_plan(procs.drop_last()) + action_for(procs.last())
    }
}

/// How a known client is refreshed: waybar reloads on `SIGUSR2`, the
/// other known clients are restarted, anything else is left alone.
pub fn handling_for(name: &str) -> (h: Option<Handling>)
    ensures
        h matches Some(Handling::Reload(sig)) ==> name@ == "waybar"@ && sig == SIGUSR2,
        h matches Some(Handling::Restart) ==> name@ != "waybar"@ && known_names().contains(
            name@,
        ),
        h is None ==> !known_names().contains(name@),
        h is Some <==> known_names().contains(name@),
        (h matches Some(Handling::Reload(_))) <==> name@ == "waybar"@,
{
    assert(known_names()[0] == "waybar"@);
    if str_eq(name, "waybar") {
        return Some(Handling::Reload(SIGUSR2));
    }
    let mut i: usize = 1;
    while i < 7
        invariant
            1 <= i <= 7,
            name@ != "waybar"@,
            forall|k: int| 0 <= k < i ==> known_names()[k] != name@,
        decreases 7 - i,
    {
        if str_eq(name, known_name(i)) {
            assert(known_names()[i as int] == name@);
            return Some(Handling::Restart);
        }
        i = i + 1;
    }
    assert forall|k: int| 0 <= k < known_names().len() implies known_names()[k] != name@ by {}
    None
}

/// Resolve a process to a known client name, matching on either `comm` or
/// the basename of `argv[0]` (clients run under an interpreter, such as
/// hyprpanel under gjs, have another `comm`).
fn canonical(p: &ProcInfo) -> (c: Option<&'static str>)
    ensures
        c matches Some(s) ==> canonical_client(p@) == Some(s@),
        c is None ==> canonical_client(p@) is None,
{
    let base: Option<&str> = if p.argv.len() > 0 {
        Some(basename(p.argv[0].as_str()))
    } else {
        None
    };
    let mut i: usize = 0;
    while i < 7
        invariant
            i <= 7,
            base matches Some(b) ==> p@.argv.len() > 0 && b@ == basename_text(p@.argv[0]),
            base is None ==> p@.argv.len() == 0,
            canonical_client(p@) == first_known_from(p@, i as int),
        decreases 7 - i,
    {
        let k = known_name(i);
        let hit = str_eq(p.comm.as_str(), k) || match base {
            Some(b) => str_eq(b, k),
            None => false,
        };
        if hit {
            return Some(k);
        }
        i = i + 1;
    }
    None
}

/// Decide what to do for each running process. No I/O, no side effects.
pub fn plan_refresh(procs: &[ProcInfo]) -> (actions: Vec<RefreshAction>)
    ensures
        actions@.map_values(|a: RefreshAction| a@) == refresh_plan(
            procs@.map_values(|p: ProcInfo| p@),
        ),
{
    let mut actions: Vec<RefreshAction> = Vec::new();
    let mut i: usize = 0;
    while i < procs.len()
        invariant
            i <= procs.len(),
            actions@.map_values(|a: RefreshAction| a@) == refresh_plan(
                procs@.subrange(0, i as int).map_values(|p: ProcInfo| p@),
            ),
        decreases procs.len() - i,
    {
        let p = &procs[i];
        let ghost before = actions@;
        proof {
            let s = procs@.subrange(0, i as int + 1).map_values(|p: ProcInfo| p@);
            assert(s.drop_last() =~= procs@.subrange(0, i as int).map_values(|p: ProcInfo| p@));
            assert(s.last() == p@);
        }
        match canonical(p) {
            None => {
                assert(actions@.map_values(|a: RefreshAction| a@) =~= before.map_values(
                    |a: RefreshAction| a@,
                ) + action_for(p@));
            },
            Some(client) => {
                match handling_for(client) {
                    Some(Handling::Reload(signal)) => {
                        actions.push(RefreshAction::Signal { pid: p.pid, signal, client });
                        assert(actions@.map_values(|a: RefreshAction| a@) =~= before.map_values(
                            |a: RefreshAction| a@,
                        ) + action_for(p@));
                    },
                    Some(Handling::Restart) => {
                        if p.argv.len() == 0 {
                            assert(actions@.map_values(|a: RefreshAction| a@) =~= before.map_values(
                                |a: RefreshAction| a@,
                            ) + action_for(p@));
                        } else {
                            let argv = p.argv.clone();
                            proof {
                                assert(argv@.map_values(|s: String| s@) =~= p.argv@.map_values(
                                    |s: String| s@,
                                ));
                            }
                            actions.push(RefreshAction::Restart { pid: p.pid, argv, client });
                            assert(actions@.map_values(|a: RefreshAction| a@) =~= before.map_values(
                                |a: RefreshAction| a@,
                            ) + action_for(p@));
                        }
                    },
                    None => {
                        proof {
                            lemma_canonical_is_known(p@, 0);
                        }
                    },
                }
            },
        }
        i = i + 1;
    }
    proof {
        assert(procs@.subrange(0, procs.len() as int) =~= procs@);
    }
    actions
}

/// The command lines that carry out an action, in order: `kill -<signal>
/// <pid>` for a reload; for a restart `kill <pid>`, then `setsid -f --`
/// followed by the client's own argv, which starts it again detached in a
/// session of its own.
pub open spec fn action_commands(a: ActionView) -> Seq<Seq<Seq<char>>> {
    match a {
        ActionView::Signal { pid, signal, .. } => seq![
            seq!["kill"@, seq!['-'] + int_digits(signal as int), int_digits(pid as int)],
        ],
        ActionView::Restart { pid, argv, .. } => seq![
            seq!["kill"@, int_digits(pid as int)],
            seq!["setsid"@, "-f"@, "--"@] + argv,
        ],
    }
}

fn int_string(i: i32) -> (s: String)
    ensures
        s@ == int_digits(i as int),
{
    let mut s = String::new();
    push_i64(&mut s, i as i64);
    proof {
        assert(s@ =~= int_digits(i as int));
    }
    s
}

/// The command lines (program first, then its arguments) that carry out
/// `action`.
pub fn command_lines(action: &RefreshAction) -> (cmds: Vec<Vec<String>>)
    ensures
        cmds.len() == action_commands(action@).len(),
        forall|i: int|
            0 <= i < cmds.len() ==> (#[trigger] cmds[i])@.map_values(|s: String| s@) == action_commands(
                action@,
            )[i],
{
    match action {
        RefreshAction::Signal { pid, signal, .. } => {
            let mut sig = String::new();
            proof {
                reveal_strlit("-");
            }
            sig.append("-");
            push_i64(&mut sig, *signal as i64);
            proof {
                assert("-"@ =~= seq!['-']);
                assert(sig@ =~= seq!['-'] + int_digits(*signal as int));
            }
            let line = vec!["kill".to_owned(), sig, int_string(*pid)];
            proof {
                assert(line@.map_values(|s: String| s@) =~= action_commands(action@)[0]);
            }
            vec![line]
        },
        RefreshAction::Restart { pid, argv, .. } => {
            let kill = vec!["kill".to_owned(), int_string(*pid)];
            let mut spawn = vec!["setsid".to_owned(), "-f".to_owned(), "--".to_owned()];
            let ghost head = spawn@.map_values(|s: String| s@);
            let mut i: usize = 0;
            while i < argv.len()
                invariant
                    i <= argv.len(),
                    spawn@.map_values(|s: String| s@) == head + argv@.subrange(0, i as int).map_values(
                        |s: String| s@,
                    ),
                decreases argv.len() - i,
            {
                let ghost before = spawn@;
                spawn.push(argv[i].clone());
                proof {
                    assert(argv@.subrange(0, i + 1).map_values(|s: String| s@) =~= argv@.subrange(
                        0,
                        i as int,
                    ).map_values(|s: String| s@).push(argv[i as int]@));
                    assert(spawn@.map_values(|s: String| s@) =~= before.map_values(|s: String| s@).push(
                        argv[i as int]@,
                    ));
                }
                i = i + 1;
            }
            proof {
                assert(argv@.subrange(0, argv.len() as int) =~= argv@);
                assert(kill@.map_values(|s: String| s@) =~= action_commands(action@)[0]);
                assert(head =~= seq!["setsid"@, "-f"@, "--"@]);
                assert(spawn@.map_values(|s: String| s@) =~= action_commands(action@)[1]);
            }
            vec![kill, spawn]
        },
    }
}

proof fn lemma_canonical_is_known(p: ProcView, from: int)
    ensures
        first_known_from(p, from) matches Some(k) ==> known_names().contains(k),
    decreases 7 - from,
{
    if 0 <= from < 7 {
        lemma_canonical_is_known(p, from + 1);
        assert(known_names()[from] == known_names()[from]);
    }
}


/// An action is one `refresh_plan` may give: a `SIGUSR2` to waybar, or a
/// restart of another known client from a non-empty argv.
pub open spec fn permitted_action(a: ActionView) -> bool {
    match a {
        ActionView::Signal { signal, client, .. } => signal == SIGUSR2 && client == "waybar"@,
        ActionView::Restart { argv, client, .. } => argv.len() > 0 && known_names().contains(client)
            && client != "waybar"@,
    }
}

/// Refreshing acts only on recognised clients, at most once per process:
/// waybar is told to reload, the others are restarted only when their
/// argv is known, and everything else is left alone.
pub proof fn lemma_refresh_plan_only_known_clients(procs: Seq<ProcView>)
    ensures
        refresh_plan(procs).len() <= procs.len(),
        forall|k: int| 0 <= k < refresh_plan(procs).len() ==> permitted_action(#[trigger] refresh_plan(procs)[k]),
    decreases procs.len(),
{
    if procs.len() > 0 {
        let init = procs.drop_last();
        lemma_refresh_plan_only_known_clients(init);
        let p = procs.last();
        lemma_canonical_is_known(p, 0);
        let prev = refresh_plan(init);
        let cur = refresh_plan(procs);
        assert forall|k: int| 0 <= k < cur.len() implies permitted_action(#[trigger] cur[k]) by {
            if k < prev.len() {
                assert(cur[k] == prev[k]);
            } else {
                assert(cur[k] == action_for(p)[k - prev.len()]);
            }
        }
    }
}

} // verus!
