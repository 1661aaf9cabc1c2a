//! The wording of `bloat doctor`: how the remote is introduced and what state
//! the shell completions are in.
use vstd::prelude::*;
use crate::text::{append_chars, chars_of, contains_chars, find_char, find_from, lower, lower_chars, mentions, same_chars, string_of, sub_chars};
use crate::version::{Local, Remote};

verus! {

/// Append the characters of `s` to `out`.
fn push_text(out: &mut Vec<char>, s: &str)
    ensures
        final(out)@ == old(out)@ + s@,
{
    let c = chars_of(s);
    append_chars(out, &c);
}

/// `@ 6eb6784 (branch main)`.
pub open spec fn remote_line(short: Seq<char>, branch: Seq<char>) -> Seq<char> {
    seq!['@', ' '] + short + seq![' ', '(', 'b', 'r', 'a', 'n', 'c', 'h', ' '] + branch + seq![')']
}

/// How `doctor` introduces the remote: its stamp and its branch.
pub fn remote_prefix(remote: &Remote) -> (s: String)
    ensures
        s@ == remote_line(remote.short@, remote.branch@),
{
    let mut out: Vec<char> = Vec::new();
    let st = remote.stamp();
    push_text(&mut out, st.as_str());
    let mid = " (branch ";
    proof {
        reveal_strlit(" (branch ");
    }
    push_text(&mut out, mid);
    push_text(&mut out, remote.branch.as_str());
    out.push(')');
    proof {
        assert(out@ =~= remote_line(remote.short@, remote.branch@));
    }
    string_of(out.as_slice())
}

/// The day of an ISO 8601 timestamp: everything before the first `T`.
pub open spec fn day_part(date: Seq<char>) -> Seq<char> {
    let t = find_from(date, 'T', 0);
    if t < 0 {
        date
    } else {
        date.take(t)
    }
}

/// `https://github.com/… · 2026-09-23`: where the remote lives, and the day
/// of its commit when that is known.
pub open spec fn origin_line(repo: Seq<char>, date: Option<Seq<char>>) -> Seq<char> {
    match date {
        Some(d) => repo + seq![' ', '·', ' '] + day_part(d),
        None => repo,
    }
}

/// The second line of `doctor`'s remote block.
pub fn remote_origin(repo: &str, date: Option<&str>) -> (s: String)
    ensures
        s@ == origin_line(repo@, match date { Some(d) => Some(d@), None => None }),
{
    let mut out: Vec<char> = Vec::new();
    push_text(&mut out, repo);
    if let Some(d) = date {
        out.push(' ');
        out.push('·');
        out.push(' ');
        let cs = chars_of(d);
        let end = match find_char(&cs, 'T', 0) {
            Some(t) => t,
            None => cs.len(),
        };
        let day = sub_chars(&cs, 0, end);
        append_chars(&mut out, &day);
        proof {
            assert(day@ =~= day_part(d@));
        }
    }
    proof {
        assert(out@ =~= origin_line(repo@, match date { Some(d) => Some(d@), None => None }));
    }
    string_of(out.as_slice())
}

pub open spec fn dynamic_note() -> Seq<char> {
    seq!['d', 'y', 'n', 'a', 'm', 'i', 'c', ' ', '·', ' ', 's', 'n', 'i', 'p', 'p', 'e', 't', ' ', 'i', 'n', ' ']
}

pub open spec fn static_note() -> Seq<char> {
    seq!['s', 't', 'a', 't', 'i', 'c', ' ', 'f', 'i', 'l', 'e', ' ', '·', ' ']
}

pub open spec fn missing_note() -> Seq<char> {
    seq![
        'n', 'o', 't', ' ', 'i', 'n', 's', 't', 'a', 'l', 'l', 'e', 'd', ' ', '(', 's', 'e', 'e', ' ',
        'R', 'E', 'A', 'D', 'M', 'E', ' ', '→', ' ', 'S', 'h', 'e', 'l', 'l', ' ', 'c', 'o', 'm', 'p',
        'l', 'e', 't', 'i', 'o', 'n', 's', ')',
    ]
}

/// The completion state of one shell: a snippet in its rc file wins, then a
/// static completion file, else not installed.
pub open spec fn completion_text(rc_hit: Option<bool>, found: Option<Seq<char>>, rc: Seq<char>) -> Seq<char> {
    if rc_hit == Some(true) {
        dynamic_note() + rc
    } else {
        match found {
            Some(p) => static_note() + p,
            None => missing_note(),
        }
    }
}

/// The completion state of one shell: a snippet in its rc file wins (`rc_hit`
/// says whether the rc file holds it, `None` when there is no home), then the
/// first static completion file found on disk, else not installed.
pub fn describe(rc_hit: Option<bool>, found: Option<&str>, rc: &str) -> (s: String)
    ensures
        s@ == completion_text(
            rc_hit,
            match found {
                Some(p) => Some(p@),
                None => None,
            },
            rc@,
        ),
{
    let mut out: Vec<char> = Vec::new();
    if rc_hit == Some(true) {
        let lead = "dynamic · snippet in ";
        proof {
            reveal_strlit("dynamic · snippet in ");
        }
        push_text(&mut out, lead);
        push_text(&mut out, rc);
        proof {
            assert(out@ =~= dynamic_note() + rc@);
        }
        return string_of(out.as_slice());
    }
    match found {
        Some(p) => {
            let lead = "static file · ";
            proof {
                reveal_strlit("static file · ");
            }
            push_text(&mut out, lead);
            push_text(&mut out, p);
            proof {
                assert(out@ =~= static_note() + p@);
            }
            string_of(out.as_slice())
        },
        None => {
            let m = "not installed (see README → Shell completions)";
            proof {
                reveal_strlit("not installed (see README → Shell completions)");
                assert(m@ =~= missing_note());
            }
            m.to_owned()
        },
    }
}


/// `unset`.
pub open spec fn unset_word() -> Seq<char> {
    seq!['u', 'n', 's', 'e', 't']
}

/// How `doctor` shows the locale `raw` (the first of `LC_ALL`, `LC_CTYPE`,
/// `LANG` that is set): a tick when it names UTF-8, a question otherwise.
pub open spec fn locale_text(raw: Seq<char>) -> Seq<char> {
    if raw.len() == 0 {
        unset_word()
    } else if mentions(lower(raw), seq!['u', 't', 'f', '-', '8']) || mentions(lower(raw), seq!['u', 't', 'f', '8']) {
        raw + seq![' ', '✓']
    } else {
        raw + seq![' ', '(', 'n', 'o', ' ', 'U', 'T', 'F', '-', '8', '?', ')']
    }
}

/// The locale line of `doctor`.
pub fn locale_line(raw: &str) -> (s: String)
    ensures
        s@ == locale_text(raw@),
{
    let r = chars_of(raw);
    if r.len() == 0 {
        let u = "unset";
        proof {
            reveal_strlit("unset");
        }
        return u.to_owned();
    }
    let l = lower_chars(raw);
    let a = vec!['u', 't', 'f', '-', '8'];
    let b = vec!['u', 't', 'f', '8'];
    proof {
        assert(a@ =~= seq!['u', 't', 'f', '-', '8']);
        assert(b@ =~= seq!['u', 't', 'f', '8']);
    }
    let utf8 = contains_chars(&l, &a) || contains_chars(&l, &b);
    let mut out: Vec<char> = Vec::new();
    append_chars(&mut out, &r);
    if utf8 {
        out.push(' ');
        out.push('✓');
    } else {
        let tail = " (no UTF-8?)";
        proof {
            reveal_strlit(" (no UTF-8?)");
        }
        push_text(&mut out, tail);
    }
    proof {
        assert(out@ =~= locale_text(raw@));
    }
    string_of(out.as_slice())
}

pub open spec fn up_to_date() -> Seq<char> {
    seq!['u', 'p', ' ', 't', 'o', ' ', 'd', 'a', 't', 'e']
}

/// `update available: <local> → <remote>   (run `bloat update`)`.
pub open spec fn update_line(local_short: Seq<char>, remote_short: Seq<char>) -> Seq<char> {
    seq!['u', 'p', 'd', 'a', 't', 'e', ' ', 'a', 'v', 'a', 'i', 'l', 'a', 'b', 'l', 'e', ':', ' '] + local_short
        + seq![' ', '→', ' '] + remote_short + seq![
        ' ', ' ', ' ', '(', 'r', 'u', 'n', ' ', '`', 'b', 'l', 'o', 'a', 't', ' ', 'u', 'p', 'd', 'a', 't', 'e', '`',
        ')',
    ]
}

/// `doctor`'s verdict once the remote answered: the commit is the identity.
pub fn remote_status(local: &Local, remote: &Remote) -> (s: String)
    ensures
        s@ == if local.hash@ == remote.hash@ { up_to_date() } else { update_line(local.short@, remote.short@) },
{
    let lh = chars_of(local.hash.as_str());
    let rh = chars_of(remote.hash.as_str());
    if same_chars(&lh, &rh) {
        let u = "up to date";
        proof {
            reveal_strlit("up to date");
            assert(u@ =~= up_to_date());
        }
        return u.to_owned();
    }
    let mut out: Vec<char> = Vec::new();
    let head = "update available: ";
    let mid = " → ";
    let tail = "   (run `bloat update`)";
    proof {
        reveal_strlit("update available: ");
        reveal_strlit(" → ");
        reveal_strlit("   (run `bloat update`)");
    }
    push_text(&mut out, head);
    push_text(&mut out, local.short.as_str());
    push_text(&mut out, mid);
    push_text(&mut out, remote.short.as_str());
    push_text(&mut out, tail);
    proof {
        assert(out@ =~= update_line(local.short@, remote.short@));
    }
    string_of(out.as_slice())
}


/// What `bloat update` does once it knows both commits.
#[derive(Clone, Copy, Debug, PartialEq, Eq, Structural)]
pub enum UpdatePlan {
    /// The installed commit is the remote one (and `--force` was not given).
    NothingToDo,
    /// `--check`: only say that an update exists.
    ReportOnly,
    /// Rebuild and reinstall.
    Install,
}

/// What `bloat update` does: nothing when the installed commit is the remote
/// one (unless forced), only report with `--check`, else reinstall.
pub fn update_plan(local: &Local, remote: &Remote, force: bool, check: bool) -> (p: UpdatePlan)
    ensures
        p == if remote.hash@ == local.hash@ && !force {
            UpdatePlan::NothingToDo
        } else if check {
            UpdatePlan::ReportOnly
        } else {
            UpdatePlan::Install
        },
{
    let lh = chars_of(local.hash.as_str());
    let rh = chars_of(remote.hash.as_str());
    if same_chars(&rh, &lh) && !force {
        UpdatePlan::NothingToDo
    } else if check {
        UpdatePlan::ReportOnly
    } else {
        UpdatePlan::Install
    }
}

/// Arguments of the `cargo install` that `bloat update` runs.
pub fn install_args(repo: &str, locked: bool) -> (v: Vec<String>)
    ensures
        v@.len() == if locked { 5int } else { 4 },
        v@[0]@ == seq!['i', 'n', 's', 't', 'a', 'l', 'l'],
        v@[1]@ == seq!['-', '-', 'g', 'i', 't'],
        v@[2]@ == repo@,
        v@[3]@ == seq!['-', '-', 'f', 'o', 'r', 'c', 'e'],
        locked ==> v@[4]@ == seq!['-', '-', 'l', 'o', 'c', 'k', 'e', 'd'],
{
    let a = "install";
    let b = "--git";
    let c = "--force";
    let d = "--locked";
    proof {
        reveal_strlit("install");
        reveal_strlit("--git");
        reveal_strlit("--force");
        reveal_strlit("--locked");
    }
    let mut v: Vec<String> = Vec::new();
    v.push(a.to_owned());
    v.push(b.to_owned());
    v.push(repo.to_owned());
    v.push(c.to_owned());
    if locked {
        v.push(d.to_owned());
    }
    v
}


/// What the file system says about one shell's completions: whether its rc
/// file holds the snippet (`None` without a home directory), and the first
/// static completion file that exists.
pub struct Probe {
    pub rc_hit: Option<bool>,
    pub found: Option<String>,
}

pub open spec fn found_of(p: Probe) -> Option<Seq<char>> {
    match p.found {
        Some(f) => Some(f@),
        None => None,
    }
}

fn found_str(f: &Option<String>) -> (r: Option<&str>)
    ensures
        match r {
            Some(p) => f matches Some(g) && p@ == g@,
            None => f is None,
        },
{
    match f {
        Some(g) => Some(g.as_str()),
        None => None,
    }
}

/// One row per shell `doctor` knows how to detect: bash, zsh and fish.
pub fn completion_rows(bash: Probe, zsh: Probe, fish: Probe) -> (rows: Vec<(&'static str, String)>)
    ensures
        rows@.len() == 3,
        rows@[0].0@ == seq!['b', 'a', 's', 'h'],
        rows@[1].0@ == seq!['z', 's', 'h'],
        rows@[2].0@ == seq!['f', 'i', 's', 'h'],
        rows@[0].1@ == completion_text(bash.rc_hit, found_of(bash), seq!['~', '/', '.', 'b', 'a', 's', 'h', 'r', 'c']),
        rows@[1].1@ == completion_text(zsh.rc_hit, found_of(zsh), seq!['~', '/', '.', 'z', 's', 'h', 'r', 'c']),
        rows@[2].1@ == completion_text(
            fish.rc_hit,
            found_of(fish),
            seq!['~', '/', '.', 'c', 'o', 'n', 'f', 'i', 'g', '/', 'f', 'i', 's', 'h', '/', 'c', 'o', 'n', 'f', 'i', 'g', '.', 'f', 'i', 's', 'h'],
        ),
{
    proof {
        reveal_strlit("bash");
        reveal_strlit("zsh");
        reveal_strlit("fish");
        reveal_strlit("~/.bashrc");
        reveal_strlit("~/.zshrc");
        reveal_strlit("~/.config/fish/config.fish");
    }
    let b = describe(bash.rc_hit, found_str(&bash.found), "~/.bashrc");
    let z = describe(zsh.rc_hit, found_str(&zsh.found), "~/.zshrc");
    let f = describe(fish.rc_hit, found_str(&fish.found), "~/.config/fish/config.fish");
    let mut rows: Vec<(&'static str, String)> = Vec::new();
    rows.push(("bash", b));
    rows.push(("zsh", z));
    rows.push(("fish", f));
    rows
}

} // verus!
