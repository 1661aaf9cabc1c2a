//! Version identity: what this binary is, and what the remote has.
use vstd::prelude::*;
use crate::scan::trim_slashes;
use crate::text::{
    append_chars, chars_of, find_char, find_from, find_seq, find_sub, is_digit, is_white,
    lemma_find_from_range, lemma_find_from_skip, occurs, occurs_at, rfind, rfind_char, same_chars,
    string_of, sub_chars, trim, trim_bounds, trim_start, white,
};

verus! {

/// `std::path::PathBuf`, carried through unopened: where the binary lives.
#[verifier::external_type_specification]
#[verifier::external_body]
pub struct ExPathBuf(std::path::PathBuf);

/// What the running binary knows about itself.
#[derive(Debug)]
pub struct Local {
    pub version: String,
    pub hash: String,
    pub short: String,
    pub reference: String,
    pub dirty: bool,
    pub date: String,
    pub profile: String,
    pub target: String,
    pub binary: std::path::PathBuf,
}

impl Local {
    /// `v0.1.0 @ 6eb6784` — the hash is the identity, versions can repeat.
    pub fn stamp(&self) -> (s: String)
        ensures
            s@ == seq!['v'] + self.version@ + seq![' ', '@', ' '] + self.short@ + if self.dirty {
                seq!['+', 'd', 'i', 'r', 't', 'y']
            } else {
                Seq::empty()
            },
    {
        let mut out: Vec<char> = Vec::new();
        out.push('v');
        let v = chars_of(self.version.as_str());
        append_chars(&mut out, &v);
        out.push(' ');
        out.push('@');
        out.push(' ');
        let sh = chars_of(self.short.as_str());
        append_chars(&mut out, &sh);
        if self.dirty {
            out.push('+');
            out.push('d');
            out.push('i');
            out.push('r');
            out.push('t');
            out.push('y');
        }
        proof {
            assert(out@ =~= seq!['v'] + self.version@ + seq![' ', '@', ' '] + self.short@ + if self.dirty {
                seq!['+', 'd', 'i', 'r', 't', 'y']
            } else {
                Seq::empty()
            });
        }
        string_of(out.as_slice())
    }

    /// True when this binary was built outside a git checkout, so it can never
    /// know its own commit.
    pub fn is_unknown(&self) -> (r: bool)
        ensures
            r == (self.hash@ == seq!['u', 'n', 'k', 'n', 'o', 'w', 'n'] || self.hash@.len() == 0),
    {
        let h = chars_of(self.hash.as_str());
        let unknown = vec!['u', 'n', 'k', 'n', 'o', 'w', 'n'];
        proof {
            assert(unknown@ =~= seq!['u', 'n', 'k', 'n', 'o', 'w', 'n']);
        }
        same_chars(&h, &unknown) || h.len() == 0
    }

    /// The branch the binary was built from, unless git could not name one.
    pub fn branch_label(&self) -> (r: Option<&str>)
        ensures
            ({
                let x = self.reference@;
                if x.len() == 0 || x == seq!['u', 'n', 'k', 'n', 'o', 'w', 'n'] || x == seq!['H', 'E', 'A', 'D'] {
                    r is None
                } else {
                    r matches Some(b) && b@ == x
                }
            }),
    {
        let x = chars_of(self.reference.as_str());
        let unknown = vec!['u', 'n', 'k', 'n', 'o', 'w', 'n'];
        let head = vec!['H', 'E', 'A', 'D'];
        proof {
            assert(unknown@ =~= seq!['u', 'n', 'k', 'n', 'o', 'w', 'n']);
            assert(head@ =~= seq!['H', 'E', 'A', 'D']);
        }
        if x.len() == 0 || same_chars(&x, &unknown) || same_chars(&x, &head) {
            None
        } else {
            Some(self.reference.as_str())
        }
    }
}

/// The commit at the remote `HEAD`, with what the GitHub API adds to it.
#[derive(Debug)]
pub struct Remote {
    pub hash: String,
    pub short: String,
    pub branch: String,
    pub date: Option<String>,
    pub subject: Option<String>,
}

impl Remote {
    /// `@ 6eb6784`.
    pub fn stamp(&self) -> (s: String)
        ensures
            s@ == seq!['@', ' '] + self.short@,
    {
        let mut out: Vec<char> = Vec::new();
        out.push('@');
        out.push(' ');
        let sh = chars_of(self.short.as_str());
        append_chars(&mut out, &sh);
        proof {
            assert(out@ =~= seq!['@', ' '] + self.short@);
        }
        string_of(out.as_slice())
    }
}



/// The prefix of the symbolic-ref line of `git ls-remote --symref`.
pub open spec fn ref_prefix() -> Seq<char> {
    seq!['r', 'e', 'f', ':', ' ']
}

pub open spec fn head_word() -> Seq<char> {
    seq!['H', 'E', 'A', 'D']
}

pub open spec fn default_branch() -> Seq<char> {
    seq!['d', 'e', 'f', 'a', 'u', 'l', 't']
}

/// A line as `str::lines` yields it when a `\n` ended it: a `\r` before the
/// `\n` goes too.
pub open spec fn strip_cr(line: Seq<char>) -> Seq<char> {
    if line.len() > 0 && line.last() == '\r' {
        line.drop_last()
    } else {
        line
    }
}

/// Branch named by the rest of a `ref: ` line: the part before the first tab,
/// from its last `/` on.
pub open spec fn ref_branch(rest: Seq<char>) -> Seq<char> {
    let t = find_from(rest, '\t', 0);
    let target = if t == -1 { rest } else { rest.take(t) };
    let k = rfind(target, '/');
    if k == -1 { target } else { target.skip(k + 1) }
}

/// The commit of a `<sha>\tHEAD` line: split at the first tab, the name
/// trimmed must be `HEAD`, the sha is trimmed.
pub open spec fn head_hash(line: Seq<char>) -> Option<Seq<char>> {
    let t = find_from(line, '\t', 0);
    if t == -1 {
        None
    } else if trim(line.skip(t + 1)) == head_word() {
        Some(trim(line.take(t)))
    } else {
        None
    }
}

/// One line of `git ls-remote` output applied to what is known so far
/// (branch, hash).
pub open spec fn ls_step(
    st: (Option<Seq<char>>, Option<Seq<char>>),
    line: Seq<char>,
) -> (Option<Seq<char>>, Option<Seq<char>>) {
    if occurs_at(line, ref_prefix(), 0) {
        (Some(ref_branch(line.skip(5))), st.1)
    } else {
        match head_hash(line) {
            Some(h) => (st.0, Some(h)),
            None => st,
        }
    }
}

/// Every line of `s` (split as `str::lines` splits) applied in order.
pub open spec fn ls_run(
    s: Seq<char>,
    st: (Option<Seq<char>>, Option<Seq<char>>),
) -> (Option<Seq<char>>, Option<Seq<char>>)
    decreases s.len(),
{
    if s.len() == 0 {
        st
    } else {
        let i = find_from(s, '\n', 0);
        if i == -1 {
            ls_step(st, s)
        } else {
            proof {
                lemma_find_from_range(s, '\n', 0);
            }
            ls_run(s.skip(i + 1), ls_step(st, strip_cr(s.take(i))))
        }
    }
}

/// The first seven characters of a hash.
pub open spec fn short_of(h: Seq<char>) -> Seq<char> {
    if h.len() <= 7 { h } else { h.take(7) }
}

pub open spec fn opt_chars(o: Option<Vec<char>>) -> Option<Seq<char>> {
    match o {
        Some(v) => Some(v@),
        None => None,
    }
}

fn ls_line(line: &Vec<char>, branch: Option<Vec<char>>, hash: Option<Vec<char>>) -> (r: (
    Option<Vec<char>>,
    Option<Vec<char>>,
))
    ensures
        (opt_chars(r.0), opt_chars(r.1)) == ls_step((opt_chars(branch), opt_chars(hash)), line@),
{
    let pre = vec!['r', 'e', 'f', ':', ' '];
    proof {
        assert(pre@ =~= ref_prefix());
    }
    if occurs(line, &pre, 0) {
        let rest = sub_chars(line, 5, line.len());
        proof {
            assert(rest@ =~= line@.skip(5));
        }
        let target = match find_char(&rest, '\t', 0) {
            Some(j) => {
                let t = sub_chars(&rest, 0, j);
                proof {
                    assert(t@ =~= rest@.take(j as int));
                }
                t
            },
            None => rest,
        };
        let b = match rfind_char(&target, '/') {
            Some(j) => {
                let t = sub_chars(&target, j + 1, target.len());
                proof {
                    assert(t@ =~= target@.skip(j + 1));
                }
                t
            },
            None => target,
        };
        (Some(b), hash)
    } else {
        match find_char(line, '\t', 0) {
            None => (branch, hash),
            Some(j) => {
                let n = line.len();
                let (a, b) = trim_bounds(line, j + 1, n);
                let name = sub_chars(line, a, b);
                let head = vec!['H', 'E', 'A', 'D'];
                proof {
                    assert(head@ =~= head_word());
                    assert(line@.subrange(j + 1, line@.len() as int) =~= line@.skip(j + 1));
                }
                if same_chars(&name, &head) {
                    let (c, d) = trim_bounds(line, 0, j);
                    let h = sub_chars(line, c, d);
                    proof {
                        assert(line@.subrange(0, j as int) =~= line@.take(j as int));
                    }
                    (branch, Some(h))
                } else {
                    (branch, hash)
                }
            },
        }
    }
}

/// Parse the two lines of `git ls-remote --symref <repo> HEAD` that matter:
/// `ref: refs/heads/main\tHEAD` and `<sha>\tHEAD`. `None` when no line names
/// the `HEAD` commit.
pub fn parse_ls_remote(text: &str) -> (r: Option<Remote>)
    ensures
        ({
            let st = ls_run(text@, (None, None));
            match r {
                None => st.1 is None,
                Some(rm) => {
                    &&& st.1 == Some(rm.hash@)
                    &&& rm.short@ == short_of(rm.hash@)
                    &&& rm.branch@ == (match st.0 {
                        Some(b) => b,
                        None => default_branch(),
                    })
                    &&& rm.date is None
                    &&& rm.subject is None
                },
            }
        }),
{
    let v = chars_of(text);
    let mut pos: usize = 0;
    let mut branch: Option<Vec<char>> = None;
    let mut hash: Option<Vec<char>> = None;
    proof {
        assert(v@.skip(0) =~= v@);
    }
    while pos < v.len()
        invariant
            pos <= v@.len(),
            v@ == text@,
            ls_run(v@, (None, None)) == ls_run(v@.skip(pos as int), (opt_chars(branch), opt_chars(hash))),
        decreases v@.len() - pos,
    {
        let ghost s = v@.skip(pos as int);
        proof {
            lemma_find_from_skip(v@, '\n', pos as int, 0);
            lemma_find_from_range(v@, '\n', pos as int);
        }
        match find_char(&v, '\n', pos) {
            Some(i) => {
                let mut end = i;
                if end > pos && v[end - 1] == '\r' {
                    end = end - 1;
                }
                let line = sub_chars(&v, pos, end);
                proof {
                    assert(line@ =~= strip_cr(s.take(i - pos)));
                    assert(s.skip(i - pos + 1) =~= v@.skip(i + 1));
                }
                let (b, h) = ls_line(&line, branch, hash);
                branch = b;
                hash = h;
                pos = i + 1;
            },
            None => {
                let line = sub_chars(&v, pos, v.len());
                proof {
                    assert(line@ =~= s);
                    assert(v@.skip(v@.len() as int) =~= Seq::<char>::empty());
                }
                let (b, h) = ls_line(&line, branch, hash);
                branch = b;
                hash = h;
                pos = v.len();
            },
        }
    }
    proof {
        assert(v@.skip(pos as int) =~= Seq::<char>::empty());
    }
    match hash {
        None => None,
        Some(h) => {
            let n = if h.len() < 7 { h.len() } else { 7 };
            let short = sub_chars(&h, 0, n);
            proof {
                assert(short@ =~= short_of(h@));
            }
            let br = match branch {
                Some(b) => b,
                None => {
                    let d = vec!['d', 'e', 'f', 'a', 'u', 'l', 't'];
                    proof {
                        assert(d@ =~= default_branch());
                    }
                    d
                },
            };
            Some(Remote {
                hash: string_of(h.as_slice()),
                short: string_of(short.as_slice()),
                branch: string_of(br.as_slice()),
                date: None,
                subject: None,
            })
        },
    }
}


/// `s` without its leading `:` characters.
pub open spec fn drop_colons(s: Seq<char>) -> Seq<char>
    decreases s.len(),
{
    if s.len() > 0 && s[0] == ':' {
        drop_colons(s.skip(1))
    } else {
        s
    }
}

/// What an escaped character stands for in the decoded value.
pub open spec fn unescaped(c: char) -> char {
    if c == 'n' {
        '\n'
    } else if c == 't' || c == 'r' {
        ' '
    } else {
        c
    }
}

/// Decode a JSON string body after its opening quote, `out` holding what is
/// decoded so far: the trimmed value up to the closing quote, or `None` when
/// the text ends first.
pub open spec fn string_body(s: Seq<char>, out: Seq<char>) -> Option<Seq<char>>
    decreases s.len(),
{
    if s.len() == 0 {
        None
    } else if s[0] == '\\' {
        if s.len() == 1 {
            None
        } else {
            string_body(s.skip(2), out.push(unescaped(s[1])))
        }
    } else if s[0] == '"' {
        Some(trim(out))
    } else {
        string_body(s.skip(1), out.push(s[0]))
    }
}

/// The first `"key": "value"` string value after the first `key` in `text`.
pub open spec fn json_value(text: Seq<char>, key: Seq<char>) -> Option<Seq<char>> {
    let i = find_sub(text, key, 0);
    if i == -1 {
        None
    } else {
        let rest = trim_start(drop_colons(trim_start(text.skip(i + key.len()))));
        if rest.len() > 0 && rest[0] == '"' {
            string_body(rest.skip(1), Seq::empty())
        } else {
            None
        }
    }
}

/// Index of the first character at or after `p` that is not white space.
fn skip_white(v: &Vec<char>, p: usize) -> (q: usize)
    requires
        p <= v@.len(),
    ensures
        p <= q <= v@.len(),
        v@.skip(q as int) == trim_start(v@.skip(p as int)),
{
    let mut q = p;
    while q < v.len() && white(v[q])
        invariant
            p <= q <= v@.len(),
            trim_start(v@.skip(p as int)) == trim_start(v@.skip(q as int)),
        decreases v@.len() - q,
    {
        proof {
            assert(v@.skip(q as int).skip(1) =~= v@.skip(q + 1));
        }
        q = q + 1;
    }
    q
}

/// Extract the first `"key": "value"` string value after `key`.
pub fn json_string(text: &str, key: &str) -> (r: Option<String>)
    ensures
        match r {
            Some(x) => json_value(text@, key@) == Some(x@),
            None => json_value(text@, key@) is None,
        },
{
    let v = chars_of(text);
    let k = chars_of(key);
    let n = v.len();
    let at = match find_seq(&v, &k, 0) {
        Some(i) => i + k.len(),
        None => return None,
    };
    let mut p = skip_white(&v, at);
    let ghost after_white = v@.skip(p as int);
    while p < v.len() && v[p] == ':'
        invariant
            p <= v@.len(),
            drop_colons(after_white) == drop_colons(v@.skip(p as int)),
        decreases v@.len() - p,
    {
        proof {
            assert(v@.skip(p as int).skip(1) =~= v@.skip(p + 1));
        }
        p = p + 1;
    }
    let p0 = p;
    p = skip_white(&v, p0);
    proof {
        assert(v@.skip(p0 as int) == drop_colons(after_white));
    }
    if p >= v.len() || v[p] != '"' {
        return None;
    }
    p = p + 1;
    proof {
        assert(v@.skip(p as int) =~= v@.skip(p - 1).skip(1));
    }
    let mut out: Vec<char> = Vec::new();
    let ghost body = v@.skip(p as int);
    while p < v.len()
        invariant
            p <= v@.len(),
            json_value(text@, key@) == string_body(body, Seq::empty()),
            string_body(body, Seq::empty()) == string_body(v@.skip(p as int), out@),
        decreases v@.len() - p,
    {
        let c = v[p];
        if c == '\\' {
            if p + 1 >= v.len() {
                return None;
            }
            let e = v[p + 1];
            let d = if e == 'n' {
                '\n'
            } else if e == 't' || e == 'r' {
                ' '
            } else {
                e
            };
            out.push(d);
            proof {
                assert(v@.skip(p as int).skip(2) =~= v@.skip(p + 2));
            }
            p = p + 2;
        } else if c == '"' {
            let (a, b) = trim_bounds(&out, 0, out.len());
            let t = sub_chars(&out, a, b);
            proof {
                assert(out@.subrange(0, out@.len() as int) =~= out@);
            }
            return Some(string_of(t.as_slice()));
        } else {
            out.push(c);
            proof {
                assert(v@.skip(p as int).skip(1) =~= v@.skip(p + 1));
            }
            p = p + 1;
        }
    }
    None
}

/// Length of the run of non-white characters that `s` starts with.
pub open spec fn word_len(s: Seq<char>) -> nat
    decreases s.len(),
{
    if s.len() == 0 || is_white(s[0]) {
        0
    } else {
        1 + word_len(s.skip(1))
    }
}

pub proof fn lemma_word_len(s: Seq<char>)
    ensures
        word_len(s) <= s.len(),
        s.len() > 0 && !is_white(s[0]) ==> word_len(s) >= 1,
        forall|m: int| 0 <= m < word_len(s) ==> !is_white(#[trigger] s[m]),
        word_len(s) < s.len() ==> is_white(s[word_len(s) as int]),
    decreases s.len(),
{
    if s.len() > 0 && !is_white(s[0]) {
        lemma_word_len(s.skip(1));
        assert forall|m: int| 0 <= m < word_len(s) implies !is_white(#[trigger] s[m]) by {
            if m > 0 {
                assert(s[m] == s.skip(1)[m - 1]);
            }
        }
    }
}

/// The first white-space separated word of `s` that starts with an ASCII digit.
pub open spec fn numeric_word(s: Seq<char>) -> Option<Seq<char>>
    decreases s.len(),
{
    if s.len() == 0 {
        None
    } else if is_white(s[0]) {
        numeric_word(s.skip(1))
    } else if is_digit(s[0]) {
        Some(s.take(word_len(s) as int))
    } else {
        proof {
            lemma_word_len(s);
        }
        numeric_word(s.skip(word_len(s) as int))
    }
}

/// `cargo 1.98.1 (797e8a9b 2026-08-05)` -> `1.98.1`
pub fn numeric_token(line: &str) -> (r: Option<String>)
    ensures
        match r {
            Some(x) => numeric_word(line@) == Some(x@),
            None => numeric_word(line@) is None,
        },
{
    let v = chars_of(line);
    let mut p: usize = 0;
    proof {
        assert(v@.skip(0) =~= v@);
    }
    while p < v.len()
        invariant
            p <= v@.len(),
            v@ == line@,
            numeric_word(v@) == numeric_word(v@.skip(p as int)),
        decreases v@.len() - p,
    {
        let ghost s = v@.skip(p as int);
        let c = v[p];
        if white(c) {
            proof {
                assert(s.skip(1) =~= v@.skip(p + 1));
            }
            p = p + 1;
        } else {
            let mut e = p;
            while e < v.len() && !white(v[e])
                invariant
                    p <= e <= v@.len(),
                    s == v@.skip(p as int),
                    word_len(s) == (e - p) + word_len(v@.skip(e as int)),
                decreases v@.len() - e,
            {
                proof {
                    assert(v@.skip(e as int).skip(1) =~= v@.skip(e + 1));
                }
                e = e + 1;
            }
            proof {
                lemma_word_len(s);
            }
            if '0' <= c && c <= '9' {
                let t = sub_chars(&v, p, e);
                proof {
                    assert(t@ =~= s.take(word_len(s) as int));
                }
                return Some(string_of(t.as_slice()));
            }
            proof {
                assert(s.skip(word_len(s) as int) =~= v@.skip(e as int));
            }
            p = e;
        }
    }
    None
}


/// Where `bloat update` installs from, unless overridden.
pub const REPO: &'static str = "https://github.com/BananaBites/bloat";

pub open spec fn git_suffix() -> Seq<char> {
    seq!['.', 'g', 'i', 't']
}

pub open spec fn host_word() -> Seq<char> {
    seq!['g', 'i', 't', 'h', 'u', 'b', '.', 'c', 'o', 'm']
}

/// `s` with every trailing `.git` removed.
pub open spec fn trim_git(s: Seq<char>) -> Seq<char>
    decreases s.len(),
{
    if s.len() >= 4 && s.skip(s.len() - 4) == git_suffix() {
        trim_git(s.take(s.len() - 4))
    } else {
        s
    }
}

/// `s` without its leading `/` and `:` characters.
pub open spec fn drop_seps(s: Seq<char>) -> Seq<char>
    decreases s.len(),
{
    if s.len() > 0 && (s[0] == '/' || s[0] == ':') {
        drop_seps(s.skip(1))
    } else {
        s
    }
}

/// The second piece of `s` split at `github.com`: what lies between its first
/// and its second occurrence, or after the first if there is no second.
pub open spec fn after_host(s: Seq<char>) -> Option<Seq<char>> {
    let i = find_sub(s, host_word(), 0);
    if i == -1 {
        None
    } else {
        let rest = s.skip(i + 10);
        let j = find_sub(rest, host_word(), 0);
        Some(if j == -1 { rest } else { rest.take(j) })
    }
}

/// `owner/name` of a GitHub repository URL.
pub open spec fn slug_of(url: Seq<char>) -> Option<Seq<char>> {
    match after_host(trim_git(trim_slashes(url))) {
        None => None,
        Some(piece) => {
            let rest = drop_seps(piece);
            let a = find_from(rest, '/', 0);
            if a == -1 {
                None
            } else {
                let owner = rest.take(a);
                let tail = rest.skip(a + 1);
                let b = find_from(tail, '/', 0);
                let name = if b == -1 { tail } else { tail.take(b) };
                if owner.len() == 0 || name.len() == 0 {
                    None
                } else {
                    Some(owner + seq!['/'] + name)
                }
            }
        },
    }
}

/// The URL with its trailing `/` and `.git` removed.
fn trimmed_url(v: &Vec<char>) -> (u: Vec<char>)
    ensures
        u@ == trim_git(trim_slashes(v@)),
{
    let mut end = v.len();
    proof {
        assert(v@.take(end as int) =~= v@);
    }
    while end > 0 && v[end - 1] == '/'
        invariant
            end <= v@.len(),
            trim_slashes(v@) == trim_slashes(v@.take(end as int)),
        decreases end,
    {
        proof {
            assert(v@.take(end as int).drop_last() =~= v@.take(end - 1));
        }
        end = end - 1;
    }
    let ghost u1 = v@.take(end as int);
    let git = vec!['.', 'g', 'i', 't'];
    proof {
        assert(git@ =~= git_suffix());
    }
    while end >= 4 && occurs(&v, &git, end - 4)
        invariant
            end <= v@.len(),
            git@ == git_suffix(),
            trim_git(u1) == trim_git(v@.take(end as int)),
        decreases end,
    {
        proof {
            let t = v@.take(end as int);
            assert(t.skip(t.len() - 4) =~= v@.subrange(end - 4, end as int));
            assert(t.take(t.len() - 4) =~= v@.take(end - 4));
        }
        end = end - 4;
    }
    proof {
        let t = v@.take(end as int);
        if end >= 4 {
            assert(t.skip(t.len() - 4) =~= v@.subrange(end - 4, end as int));
        }
        assert(trim_git(t) == t);
    }
    let u = sub_chars(v, 0, end);
    proof {
        assert(u@ =~= v@.take(end as int));
    }
    u
}

fn host_piece(u: &Vec<char>) -> (r: Option<Vec<char>>)
    ensures
        opt_chars(r) == after_host(u@),
{
    let host = vec!['g', 'i', 't', 'h', 'u', 'b', '.', 'c', 'o', 'm'];
    proof {
        assert(host@ =~= host_word());
    }
    let n = u.len();
    let i = match find_seq(u, &host, 0) {
        Some(i) => i,
        None => return None,
    };
    let from = i + 10;
    let rest = sub_chars(u, from, n);
    proof {
        assert(rest@ =~= u@.skip(from as int));
    }
    match find_seq(&rest, &host, 0) {
        Some(j) => {
            let t = sub_chars(&rest, 0, j);
            proof {
                assert(t@ =~= rest@.take(j as int));
            }
            Some(t)
        },
        None => Some(rest),
    }
}

/// `owner + "/" + name`.
fn joined(owner: Vec<char>, name: &Vec<char>) -> (r: Vec<char>)
    ensures
        r@ == owner@ + seq!['/'] + name@,
{
    let mut out = owner;
    out.push('/');
    let mut k: usize = 0;
    let ghost o = out@;
    while k < name.len()
        invariant
            k <= name@.len(),
            out@ == o + name@.take(k as int),
        decreases name@.len() - k,
    {
        out.push(name[k]);
        k = k + 1;
        proof {
            assert(out@ =~= o + name@.take(k as int));
        }
    }
    proof {
        assert(name@.take(name@.len() as int) =~= name@);
    }
    out
}

/// `owner/name` for a repository URL, `None` when it is not a GitHub URL.
pub fn github_slug(url: &str) -> (r: Option<String>)
    ensures
        match r {
            Some(x) => slug_of(url@) == Some(x@),
            None => slug_of(url@) is None,
        },
{
    let v = chars_of(url);
    let u = trimmed_url(&v);
    let piece = match host_piece(&u) {
        Some(p) => p,
        None => return None,
    };
    let mut a: usize = 0;
    proof {
        assert(piece@.skip(0) =~= piece@);
    }
    while a < piece.len() && (piece[a] == '/' || piece[a] == ':')
        invariant
            a <= piece@.len(),
            drop_seps(piece@) == drop_seps(piece@.skip(a as int)),
        decreases piece@.len() - a,
    {
        proof {
            assert(piece@.skip(a as int).skip(1) =~= piece@.skip(a + 1));
        }
        a = a + 1;
    }
    let pn = piece.len();
    let rest = sub_chars(&piece, a, pn);
    proof {
        assert(rest@ =~= piece@.skip(a as int));
    }
    let slash = match find_char(&rest, '/', 0) {
        Some(k) => k,
        None => return None,
    };
    let rn = rest.len();
    let owner = sub_chars(&rest, 0, slash);
    let tail = sub_chars(&rest, slash + 1, rn);
    let name = match find_char(&tail, '/', 0) {
        Some(k) => {
            let t = sub_chars(&tail, 0, k);
            proof {
                assert(t@ =~= tail@.take(k as int));
            }
            t
        },
        None => tail,
    };
    proof {
        assert(owner@ =~= rest@.take(slash as int));
        assert(tail@ =~= rest@.skip(slash + 1));
    }
    if owner.len() == 0 || name.len() == 0 {
        return None;
    }
    let out = joined(owner, &name);
    Some(string_of(out.as_slice()))
}


pub open spec fn opt_str(o: Option<String>) -> Option<Seq<char>> {
    match o {
        Some(x) => Some(x@),
        None => None,
    }
}

pub open spec fn date_key() -> Seq<char> {
    seq!['"', 'd', 'a', 't', 'e', '"', ':']
}

pub open spec fn message_key() -> Seq<char> {
    seq!['"', 'm', 'e', 's', 's', 'a', 'g', 'e', '"', ':']
}

/// The first line of `s`, as `str::lines` would yield it, or nothing.
pub open spec fn first_line(s: Seq<char>) -> Seq<char> {
    let i = find_from(s, '\n', 0);
    if i == -1 { s } else { strip_cr(s.take(i)) }
}

/// The commit date of a GitHub commit document, when it looks like one.
pub open spec fn commit_date(json: Seq<char>) -> Option<Seq<char>> {
    match json_value(json, date_key()) {
        Some(d) => if d.len() >= 2 && d[0] == '2' && d[1] == '0' {
            Some(d)
        } else {
            None
        },
        None => None,
    }
}

/// The subject line of a GitHub commit document.
pub open spec fn commit_subject(json: Seq<char>) -> Option<Seq<char>> {
    match json_value(json, message_key()) {
        Some(m) => Some(first_line(m)),
        None => None,
    }
}

/// Fill in the commit date and subject of `remote` from the GitHub API's
/// answer for its commit.
pub fn enrich_from(remote: &mut Remote, json: &str)
    ensures
        final(remote).hash == old(remote).hash,
        final(remote).short == old(remote).short,
        final(remote).branch == old(remote).branch,
        opt_str(final(remote).date) == commit_date(json@),
        opt_str(final(remote).subject) == commit_subject(json@),
{
    let dk = "\"date\":";
    let mk = "\"message\":";
    proof {
        reveal_strlit("\"date\":");
        reveal_strlit("\"message\":");
        assert(dk@ =~= date_key());
        assert(mk@ =~= message_key());
    }
    let date = match json_string(json, dk) {
        Some(d) => {
            let c = chars_of(d.as_str());
            if c.len() >= 2 && c[0] == '2' && c[1] == '0' {
                Some(d)
            } else {
                None
            }
        },
        None => None,
    };
    let subject = match json_string(json, mk) {
        Some(m) => {
            let c = chars_of(m.as_str());
            let line = match find_char(&c, '\n', 0) {
                Some(i) => {
                    let mut end = i;
                    if end > 0 && c[end - 1] == '\r' {
                        end = end - 1;
                    }
                    let t = sub_chars(&c, 0, end);
                    proof {
                        assert(t@ =~= strip_cr(c@.take(i as int)));
                    }
                    t
                },
                None => c,
            };
            Some(string_of(line.as_slice()))
        },
        None => None,
    };
    remote.date = date;
    remote.subject = subject;
}

} // verus!
