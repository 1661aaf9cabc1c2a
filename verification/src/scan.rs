//! Scan-time decisions: `--exclude` patterns, the pseudo filesystems that are
//! always skipped, hardlinked files counted once, where each walked entry goes
//! in the tree, and the shortened path shown while scanning.
use vstd::prelude::*;
use crate::arena::{all_own, law_root_holds_everything, Arena, Node, NodeId};
use crate::text::{chars_of, string_of};
use std::collections::HashSet;

verus! {

/// Standard glob semantics: `*` matches any run of characters, `?` any one
/// character, every other character itself. `globs(p, t, i, j)` says whether
/// `p[i..]` matches `t[j..]`.
pub open spec fn globs(p: Seq<char>, t: Seq<char>, i: int, j: int) -> bool
    decreases p.len() - i, t.len() - j,
{
    if i < 0 || j < 0 || j > t.len() {
        false
    } else if i >= p.len() {
        j == t.len()
    } else if p[i] == '*' {
        globs(p, t, i + 1, j) || (j < t.len() && globs(p, t, i, j + 1))
    } else {
        j < t.len() && (p[i] == '?' || p[i] == t[j]) && globs(p, t, i + 1, j + 1)
    }
}

/// The rest of the pattern from `i` on is only stars.
pub open spec fn only_stars(p: Seq<char>, i: int) -> bool {
    forall|k: int| i <= k < p.len() ==> p[k] == '*'
}

/// The matcher `glob_match` runs: it walks pattern and text together,
/// remembers the last `*` seen (`star`, or -1) and where in the text that star
/// started (`mark`), and on a mismatch lets the star swallow one more character.
pub open spec fn glob_run(p: Seq<char>, t: Seq<char>, pi: int, ti: int, star: int, mark: int) -> bool
    decreases t.len() - mark, t.len() - ti, p.len() - pi,
{
    if !(0 <= pi <= p.len() && 0 <= mark <= ti <= t.len() && star < pi) {
        false
    } else if ti >= t.len() {
        only_stars(p, pi)
    } else if pi < p.len() && p[pi] == '*' {
        glob_run(p, t, pi + 1, ti, pi, ti)
    } else if pi < p.len() && (p[pi] == '?' || p[pi] == t[ti]) {
        glob_run(p, t, pi + 1, ti + 1, star, mark)
    } else if star >= 0 {
        glob_run(p, t, star + 1, mark + 1, star, mark + 1)
    } else {
        false
    }
}

/// `p[i..i+len]` holds no star and matches `t[j..j+len]` character by character.
pub open spec fn lit_match(p: Seq<char>, t: Seq<char>, i: int, j: int, len: int) -> bool {
    forall|k: int| i <= k < i + len ==> #[trigger] p[k] != '*' && (p[k] == '?' || p[k] == t[j + (k - i)])
}

proof fn lemma_star_mono(p: Seq<char>, t: Seq<char>, i: int, j: int, j2: int)
    requires
        0 <= i < p.len(),
        p[i] == '*',
        0 <= j <= j2 <= t.len(),
        globs(p, t, i, j2),
    ensures
        globs(p, t, i, j),
    decreases j2 - j,
{
    if j < j2 {
        lemma_star_mono(p, t, i, j + 1, j2);
    }
}

proof fn lemma_star_exists(p: Seq<char>, t: Seq<char>, i: int, j: int)
    requires
        0 <= i < p.len(),
        p[i] == '*',
        0 <= j <= t.len(),
    ensures
        globs(p, t, i, j) == exists|m: int| j <= m <= t.len() && #[trigger] globs(p, t, i + 1, m),
    decreases t.len() - j,
{
    let ex = exists|m: int| j <= m <= t.len() && #[trigger] globs(p, t, i + 1, m);
    assert(globs(p, t, i, j) == (globs(p, t, i + 1, j) || (j < t.len() && globs(p, t, i, j + 1))));
    if j < t.len() {
        lemma_star_exists(p, t, i, j + 1);
        if globs(p, t, i, j) {
            if globs(p, t, i + 1, j) {
                assert(j <= j <= t.len() && globs(p, t, i + 1, j));
            } else {
                assert(globs(p, t, i, j + 1));
                let m = choose|m: int| j + 1 <= m <= t.len() && #[trigger] globs(p, t, i + 1, m);
                assert(j <= m <= t.len() && globs(p, t, i + 1, m));
            }
            assert(ex);
        }
        if ex {
            let m = choose|m: int| j <= m <= t.len() && #[trigger] globs(p, t, i + 1, m);
            if m > j {
                assert(j + 1 <= m <= t.len() && globs(p, t, i + 1, m));
                assert(globs(p, t, i, j + 1));
            }
            assert(globs(p, t, i, j));
        }
    } else {
        if ex {
            let m = choose|m: int| j <= m <= t.len() && #[trigger] globs(p, t, i + 1, m);
            assert(m == j);
        }
        if globs(p, t, i, j) {
            assert(j <= j <= t.len() && globs(p, t, i + 1, j));
        }
    }
}

proof fn lemma_lit_consume(p: Seq<char>, t: Seq<char>, i: int, j: int, len: int)
    requires
        0 <= i,
        0 <= len,
        i + len <= p.len(),
        0 <= j,
        forall|k: int| i <= k < i + len ==> #[trigger] p[k] != '*',
    ensures
        globs(p, t, i, j) == (j + len <= t.len() && lit_match(p, t, i, j, len) && globs(p, t, i + len, j + len)),
    decreases len,
{
    if len > 0 {
        assert(p[i] != '*');
        lemma_lit_consume(p, t, i + 1, j + 1, len - 1);
        if lit_match(p, t, i + 1, j + 1, len - 1) && j < t.len() && (p[i] == '?' || p[i] == t[j]) {
            assert forall|k: int| i <= k < i + len implies #[trigger] p[k] != '*' && (p[k] == '?' || p[k] == t[j + (k - i)]) by {
                if k > i {
                    assert(t[(j + 1) + (k - (i + 1))] == t[j + (k - i)]);
                }
            }
        }
        if lit_match(p, t, i, j, len) {
            assert(p[i] == '?' || p[i] == t[j + (i - i)]);
            assert forall|k: int| i + 1 <= k < i + 1 + (len - 1) implies #[trigger] p[k] != '*' && (p[k] == '?' || p[k] == t[(j + 1) + (k - (i + 1))]) by {
                assert(t[(j + 1) + (k - (i + 1))] == t[j + (k - i)]);
            }
        }
    }
}

proof fn lemma_end_stars(p: Seq<char>, t: Seq<char>, i: int)
    requires
        0 <= i <= p.len(),
    ensures
        globs(p, t, i, t.len() as int) == only_stars(p, i),
    decreases p.len() - i,
{
    if i < p.len() {
        lemma_end_stars(p, t, i + 1);
    }
}

/// What the matcher keeps true while it runs.
pub open spec fn run_inv(p: Seq<char>, t: Seq<char>, pi: int, ti: int, star: int, mark: int) -> bool {
    &&& 0 <= pi <= p.len()
    &&& 0 <= mark <= ti <= t.len()
    &&& star < pi
    &&& star < 0 ==> globs(p, t, 0, 0) == globs(p, t, pi, ti)
    &&& star >= 0 ==> {
        &&& p[star] == '*'
        &&& pi - (star + 1) == ti - mark
        &&& lit_match(p, t, star + 1, mark, pi - star - 1)
        &&& globs(p, t, 0, 0) == exists|m: int| mark <= m <= t.len() && #[trigger] globs(p, t, star + 1, m)
    }
}

proof fn lemma_run_correct(p: Seq<char>, t: Seq<char>, pi: int, ti: int, star: int, mark: int)
    requires
        run_inv(p, t, pi, ti, star, mark),
    ensures
        glob_run(p, t, pi, ti, star, mark) == globs(p, t, 0, 0),
    decreases t.len() - mark, t.len() - ti, p.len() - pi,
{
    let s = star;
    if star >= 0 {
        let len = pi - s - 1;
        assert forall|k: int| s + 1 <= k < s + 1 + len implies #[trigger] p[k] != '*' by {}
        lemma_lit_consume(p, t, s + 1, mark, len);
    }
    if ti >= t.len() {
        lemma_end_stars(p, t, pi);
        if star >= 0 {
            let len = pi - s - 1;
            if exists|m: int| mark <= m <= t.len() && #[trigger] globs(p, t, s + 1, m) {
                let m = choose|m: int| mark <= m <= t.len() && #[trigger] globs(p, t, s + 1, m);
                lemma_lit_consume(p, t, s + 1, m, len);
                assert(m == mark);
            }
        }
    } else if pi < p.len() && p[pi] == '*' {
        lemma_star_exists(p, t, pi, ti);
        if star >= 0 {
            let len = pi - s - 1;
            if exists|m: int| mark <= m <= t.len() && #[trigger] globs(p, t, s + 1, m) {
                let m = choose|m: int| mark <= m <= t.len() && #[trigger] globs(p, t, s + 1, m);
                lemma_lit_consume(p, t, s + 1, m, len);
                assert(globs(p, t, pi, m + len));
                lemma_star_mono(p, t, pi, ti, m + len);
            }
            if globs(p, t, pi, ti) {
                assert(globs(p, t, s + 1, mark));
            }
        }
        assert(lit_match(p, t, pi + 1, ti, 0));
        lemma_run_correct(p, t, pi + 1, ti, pi, ti);
    } else if pi < p.len() && (p[pi] == '?' || p[pi] == t[ti]) {
        assert(p[pi] != '*');
        if star >= 0 {
            let len = pi - s - 1;
            assert forall|k: int| s + 1 <= k < s + 1 + (len + 1) implies #[trigger] p[k] != '*' && (p[k] == '?' || p[k] == t[mark + (k - (s + 1))]) by {
                if k == pi {
                    assert(mark + (k - (s + 1)) == ti);
                }
            }
        }
        lemma_run_correct(p, t, pi + 1, ti + 1, star, mark);
    } else if star >= 0 {
        let len = pi - s - 1;
        assert(!globs(p, t, pi, ti));
        assert(!globs(p, t, s + 1, mark));
        assert((exists|m: int| mark <= m <= t.len() && #[trigger] globs(p, t, s + 1, m)) == (exists|m: int|
            mark + 1 <= m <= t.len() && #[trigger] globs(p, t, s + 1, m))) by {
            if exists|m: int| mark <= m <= t.len() && #[trigger] globs(p, t, s + 1, m) {
                let m = choose|m: int| mark <= m <= t.len() && #[trigger] globs(p, t, s + 1, m);
                assert(m != mark);
            }
        }
        assert(lit_match(p, t, s + 1, mark + 1, 0));
        lemma_run_correct(p, t, s + 1, mark + 1, star, mark + 1);
    } else {
        assert(!globs(p, t, pi, ti));
    }
}

/// Law: the matcher agrees with glob semantics on every pattern and text.
pub proof fn law_glob_semantics(p: Seq<char>, t: Seq<char>)
    ensures
        glob_run(p, t, 0, 0, -1, 0) == globs(p, t, 0, 0),
{
    lemma_run_correct(p, t, 0, 0, -1, 0);
}

/// Minimal glob: `*` and `?`.
pub fn glob_match(pat: &str, text: &str) -> (r: bool)
    ensures
        r == globs(pat@, text@, 0, 0),
{
    proof {
        law_glob_semantics(pat@, text@);
    }
    let p = chars_of(pat);
    let t = chars_of(text);
    let ghost ps = p@;
    let ghost ts = t@;
    let mut pi: usize = 0;
    let mut ti: usize = 0;
    let mut star: usize = usize::MAX;
    let mut mark: usize = 0;
    while ti < t.len()
        invariant
            ps == p@,
            ts == t@,
            ps == pat@,
            ts == text@,
            0 <= pi <= ps.len(),
            0 <= mark <= ti <= ts.len(),
            star == usize::MAX || star < pi,
            glob_run(ps, ts, 0, 0, -1, 0) == globs(ps, ts, 0, 0),
            glob_run(ps, ts, pi as int, ti as int, if star == usize::MAX { -1 } else { star as int }, mark as int)
                == glob_run(ps, ts, 0, 0, -1, 0),
        decreases ts.len() - mark, ts.len() - ti, ps.len() - pi,
    {
        if pi < p.len() && p[pi] == '*' {
            star = pi;
            mark = ti;
            pi = pi + 1;
        } else if pi < p.len() && (p[pi] == '?' || p[pi] == t[ti]) {
            pi = pi + 1;
            ti = ti + 1;
        } else if star != usize::MAX {
            pi = star + 1;
            mark = mark + 1;
            ti = mark;
        } else {
            proof {
                assert(!glob_run(ps, ts, pi as int, ti as int, -1, mark as int));
            }
            return false;
        }
    }
    let ghost stop = pi;
    while pi < p.len() && p[pi] == '*'
        invariant
            ps == p@,
            stop <= pi <= ps.len(),
            forall|k: int| stop <= k < pi ==> ps[k] == '*',
        decreases ps.len() - pi,
    {
        pi = pi + 1;
    }
    proof {
        if pi < ps.len() {
            assert(!only_stars(ps, stop as int));
        }
    }
    pi == p.len()
}

/// `s` with every trailing `/` removed.
pub open spec fn trim_slashes(s: Seq<char>) -> Seq<char>
    decreases s.len(),
{
    if s.len() > 0 && s.last() == '/' {
        trim_slashes(s.drop_last())
    } else {
        s
    }
}

/// `full` is `prefix` itself or a path below it.
pub open spec fn under(full: Seq<char>, prefix: Seq<char>) -> bool {
    ||| full == prefix
    ||| (full.len() > prefix.len() && full.take(prefix.len() as int) == prefix && full[prefix.len() as int] == '/')
}

/// One `--exclude` pattern hits an entry: an absolute pattern is a path prefix,
/// any other pattern globs the entry's name.
pub open spec fn pattern_hits(pat: Seq<char>, full: Seq<char>, name: Seq<char>) -> bool {
    if pat.len() > 0 && pat[0] == '/' {
        under(full, trim_slashes(pat))
    } else {
        globs(pat, name, 0, 0)
    }
}

/// The pattern from `i` on holds no `*` and no `?`.
pub open spec fn plain_from(p: Seq<char>, i: int) -> bool {
    forall|k: int| i <= k < p.len() ==> p[k] != '*' && p[k] != '?'
}

proof fn lemma_stars_match_all(p: Seq<char>, t: Seq<char>, i: int, j: int)
    requires
        0 <= i <= p.len(),
        0 <= j <= t.len(),
        i < p.len() || j == t.len(),
        only_stars(p, i),
    ensures
        globs(p, t, i, j),
    decreases p.len() - i, t.len() - j,
{
    if i < p.len() {
        assert(p[i] == '*');
        if j < t.len() {
            lemma_stars_match_all(p, t, i, j + 1);
        } else {
            lemma_stars_match_all(p, t, i + 1, j);
        }
    }
}

proof fn lemma_plain_is_equal(p: Seq<char>, t: Seq<char>, i: int, j: int)
    requires
        0 <= i <= p.len(),
        0 <= j <= t.len(),
        plain_from(p, i),
    ensures
        globs(p, t, i, j) <==> p.skip(i) == t.skip(j),
    decreases p.len() - i,
{
    if i < p.len() {
        assert(p[i] != '*' && p[i] != '?');
        if j < t.len() {
            lemma_plain_is_equal(p, t, i + 1, j + 1);
            assert(p.skip(i) =~= seq![p[i]] + p.skip(i + 1));
            assert(t.skip(j) =~= seq![t[j]] + t.skip(j + 1));
            if p.skip(i) == t.skip(j) {
                assert(p.skip(i)[0] == t.skip(j)[0]);
                assert(p.skip(i + 1) =~= p.skip(i).skip(1));
                assert(t.skip(j + 1) =~= t.skip(j).skip(1));
            }
        } else {
            assert(p.skip(i).len() > 0 && t.skip(j).len() == 0);
        }
    } else {
        if j < t.len() {
            assert(t.skip(j).len() > 0);
        } else {
            assert(p.skip(i) =~= t.skip(j));
        }
        assert(p.skip(i).len() == 0);
    }
}

proof fn lemma_questions_match_length(p: Seq<char>, t: Seq<char>, i: int, j: int)
    requires
        0 <= i <= p.len(),
        0 <= j <= t.len(),
        forall|k: int| i <= k < p.len() ==> p[k] == '?',
    ensures
        globs(p, t, i, j) <==> p.len() - i == t.len() - j,
    decreases p.len() - i,
{
    if i < p.len() {
        assert(p[i] == '?');
        if j < t.len() {
            lemma_questions_match_length(p, t, i + 1, j + 1);
        }
    }
}

/// Law: glob semantics. A pattern of one or more stars alone matches every
/// text; a pattern without `*` and `?` matches only itself; a pattern of `?`
/// alone matches exactly the texts of its length; and a star in front lets
/// any prefix go: `*` followed by `q` matches a text when `q` matches some
/// end of it.
pub proof fn law_glob_basics(p: Seq<char>, q: Seq<char>, t: Seq<char>, j: int)
    ensures
        p.len() > 0 && only_stars(p, 0) ==> globs(p, t, 0, 0),
        plain_from(p, 0) ==> (globs(p, t, 0, 0) <==> p == t),
        (forall|k: int| 0 <= k < p.len() ==> p[k] == '?') ==> (globs(p, t, 0, 0) <==> p.len() == t.len()),
        0 <= j <= t.len() && globs(q, t.skip(j), 0, 0) ==> globs(seq!['*'] + q, t, 0, 0),
{
    if p.len() > 0 && only_stars(p, 0) {
        lemma_stars_match_all(p, t, 0, 0);
    }
    if plain_from(p, 0) {
        lemma_plain_is_equal(p, t, 0, 0);
        assert(p.skip(0) =~= p);
        assert(t.skip(0) =~= t);
    }
    if forall|k: int| 0 <= k < p.len() ==> p[k] == '?' {
        lemma_questions_match_length(p, t, 0, 0);
    }
    if 0 <= j <= t.len() && globs(q, t.skip(j), 0, 0) {
        let sq = seq!['*'] + q;
        lemma_globs_shift(q, t, j, 0, 0);
        assert(globs(sq, t, 1, j));
        lemma_star_exists(sq, t, 0, 0);
    }
}

/// Matching `q` against the end of `t` from `j` on is matching `*q` from
/// the pattern's second character at `j`.
proof fn lemma_globs_shift(q: Seq<char>, t: Seq<char>, j: int, a: int, b: int)
    requires
        0 <= j <= t.len(),
        0 <= a <= q.len(),
        0 <= b <= t.len() - j,
    ensures
        globs(q, t.skip(j), a, b) == globs(seq!['*'] + q, t, a + 1, j + b),
    decreases q.len() - a, t.len() - j - b,
{
    let sq = seq!['*'] + q;
    let u = t.skip(j);
    if a < q.len() {
        assert(sq[a + 1] == q[a]);
        if q[a] == '*' {
            lemma_globs_shift(q, t, j, a + 1, b);
            if b < u.len() {
                lemma_globs_shift(q, t, j, a, b + 1);
            }
        } else {
            if b < u.len() {
                assert(u[b] == t[j + b]);
                lemma_globs_shift(q, t, j, a + 1, b + 1);
            }
        }
    }
}

/// Law: a pattern that does not start with `/` hits an entry exactly when it
/// globs the entry's name; where the entry lies does not matter. A pattern
/// that starts with `/` hits the path it names (trailing slashes aside) and
/// everything below it, whatever the entry's name.
pub proof fn law_patterns_hit_names_or_prefixes(pat: Seq<char>, full: Seq<char>, other: Seq<char>, name: Seq<char>, name2: Seq<char>)
    ensures
        !(pat.len() > 0 && pat[0] == '/') ==> pattern_hits(pat, full, name) == globs(pat, name, 0, 0),
        !(pat.len() > 0 && pat[0] == '/') ==> pattern_hits(pat, full, name) == pattern_hits(pat, other, name),
        pat.len() > 0 && pat[0] == '/' ==> pattern_hits(pat, full, name) == pattern_hits(pat, full, name2),
        pat.len() > 0 && pat[0] == '/' ==> (pattern_hits(pat, full, name) <==> {
            let p = trim_slashes(pat);
            ||| full == p
            ||| (full.len() > p.len() && full.take(p.len() as int) == p && full[p.len() as int] == '/')
        }),
{
}

/// Law: an entry is excluded when one of the patterns hits it, and, unless it
/// is the scan root itself (no name), when it lies in `/proc`, `/sys`, `/dev`
/// or `/run`; nothing else excludes it.
pub proof fn law_excluded_by_pattern_or_pseudo_fs(full: Seq<char>, name: Seq<char>, patterns: Seq<String>, i: int)
    ensures
        0 <= i < patterns.len() && !(patterns[i]@.len() > 0 && patterns[i]@[0] == '/') && globs(patterns[i]@, name, 0, 0)
            ==> excluded(full, name, patterns),
        name.len() > 0 && (under(full, seq!['/', 'p', 'r', 'o', 'c']) || under(full, seq!['/', 's', 'y', 's']) || under(
            full,
            seq!['/', 'd', 'e', 'v'],
        ) || under(full, seq!['/', 'r', 'u', 'n'])) ==> excluded(full, name, patterns),
        patterns.len() == 0 && !always_skipped(full) ==> !excluded(full, name, patterns),
{
    if 0 <= i < patterns.len() && !(patterns[i]@.len() > 0 && patterns[i]@[0] == '/') && globs(patterns[i]@, name, 0, 0) {
        assert(pattern_hits(patterns[i]@, full, name));
    }
}

/// Pseudo filesystems that are never interesting and can be dangerous to walk.
pub open spec fn always_skipped(full: Seq<char>) -> bool {
    ||| under(full, seq!['/', 'p', 'r', 'o', 'c'])
    ||| under(full, seq!['/', 's', 'y', 's'])
    ||| under(full, seq!['/', 'd', 'e', 'v'])
    ||| under(full, seq!['/', 'r', 'u', 'n'])
}

pub open spec fn excluded(full: Seq<char>, name: Seq<char>, patterns: Seq<String>) -> bool {
    ||| exists|i: int| 0 <= i < patterns.len() && pattern_hits(#[trigger] patterns[i]@, full, name)
    ||| (name.len() > 0 && always_skipped(full))
}

fn is_under(full: &Vec<char>, prefix: &Vec<char>) -> (r: bool)
    ensures
        r == under(full@, prefix@),
{
    let n = prefix.len();
    if full.len() < n {
        proof {
            assert(full@ != prefix@);
        }
        return false;
    }
    let mut k: usize = 0;
    while k < n
        invariant
            n == prefix@.len(),
            n <= full@.len(),
            0 <= k <= n,
            forall|m: int| 0 <= m < k ==> full@[m] == prefix@[m],
        decreases n - k,
    {
        if full[k] != prefix[k] {
            proof {
                assert(full@.take(n as int)[k as int] != prefix@[k as int]);
                assert(full@ != prefix@);
            }
            return false;
        }
        k = k + 1;
    }
    proof {
        assert(full@.take(n as int) =~= prefix@);
    }
    if full.len() == n {
        proof {
            assert(full@ =~= prefix@);
        }
        true
    } else {
        full[n] == '/'
    }
}

fn trim_slashes_exec(v: &Vec<char>) -> (r: Vec<char>)
    ensures
        r@ == trim_slashes(v@),
{
    let mut n = v.len();
    proof {
        assert(v@.take(n as int) =~= v@);
    }
    while n > 0 && v[n - 1] == '/'
        invariant
            0 <= n <= v@.len(),
            trim_slashes(v@.take(n as int)) == trim_slashes(v@),
        decreases n,
    {
        proof {
            assert(v@.take(n as int).drop_last() =~= v@.take(n as int - 1));
        }
        n = n - 1;
    }
    let mut r: Vec<char> = Vec::new();
    let mut k: usize = 0;
    while k < n
        invariant
            0 <= k <= n <= v@.len(),
            r@ == v@.take(k as int),
        decreases n - k,
    {
        r.push(v[k]);
        k = k + 1;
        proof {
            assert(r@ =~= v@.take(k as int));
        }
    }
    proof {
        assert(v@.take(v@.len() as int) =~= v@);
        if n > 0 {
            assert(v@.take(n as int).last() != '/');
        }
    }
    r
}

/// `--exclude` matching: absolute patterns are path prefixes, relative ones glob
/// the basename. `path` is the entry's full path, `name` its file name.
pub fn is_excluded(path: &str, name: &str, patterns: &[String]) -> (r: bool)
    ensures
        r == excluded(path@, name@, patterns@),
{
    let full = chars_of(path);
    let mut i: usize = 0;
    while i < patterns.len()
        invariant
            full@ == path@,
            0 <= i <= patterns@.len(),
            forall|j: int| 0 <= j < i ==> !pattern_hits(#[trigger] patterns@[j]@, path@, name@),
        decreases patterns@.len() - i,
    {
        let p = patterns[i].as_str();
        let pc = chars_of(p);
        let hit = if pc.len() > 0 && pc[0] == '/' {
            let trimmed = trim_slashes_exec(&pc);
            is_under(&full, &trimmed)
        } else {
            glob_match(p, name)
        };
        if hit {
            proof {
                assert(pattern_hits(patterns@[i as int]@, path@, name@));
            }
            return true;
        }
        i = i + 1;
    }
    if name.unicode_len() == 0 {
        return false;
    }
    let skips: Vec<Vec<char>> = vec![
        vec!['/', 'p', 'r', 'o', 'c'],
        vec!['/', 's', 'y', 's'],
        vec!['/', 'd', 'e', 'v'],
        vec!['/', 'r', 'u', 'n'],
    ];
    proof {
        assert(skips@[0]@ =~= seq!['/', 'p', 'r', 'o', 'c']);
        assert(skips@[1]@ =~= seq!['/', 's', 'y', 's']);
        assert(skips@[2]@ =~= seq!['/', 'd', 'e', 'v']);
        assert(skips@[3]@ =~= seq!['/', 'r', 'u', 'n']);
    }
    let mut k: usize = 0;
    while k < skips.len()
        invariant
            full@ == path@,
            name@.len() > 0,
            skips@.len() == 4,
            skips@[0]@ == seq!['/', 'p', 'r', 'o', 'c'],
            skips@[1]@ == seq!['/', 's', 'y', 's'],
            skips@[2]@ == seq!['/', 'd', 'e', 'v'],
            skips@[3]@ == seq!['/', 'r', 'u', 'n'],
            0 <= k <= 4,
            forall|j: int| 0 <= j < k ==> !under(path@, (#[trigger] skips@[j])@),
        decreases 4 - k,
    {
        if is_under(&full, &skips[k]) {
            proof {
                if k == 0 {
                    assert(under(path@, seq!['/', 'p', 'r', 'o', 'c']));
                } else if k == 1 {
                    assert(under(path@, seq!['/', 's', 'y', 's']));
                } else if k == 2 {
                    assert(under(path@, seq!['/', 'd', 'e', 'v']));
                } else {
                    assert(under(path@, seq!['/', 'r', 'u', 'n']));
                }
                assert(always_skipped(path@));
            }
            return true;
        }
        k = k + 1;
    }
    proof {
        assert(!under(path@, skips@[0]@));
        assert(!under(path@, skips@[1]@));
        assert(!under(path@, skips@[2]@));
        assert(!under(path@, skips@[3]@));
    }
    false
}

/// Longest path shown while scanning, in characters.
pub const CLEAN_MAX: usize = 90;

/// A path shortened for the live scan readout: at most 90 characters, the
/// head replaced by `…` when it is longer.
pub open spec fn clean_text(s: Seq<char>) -> Seq<char> {
    if s.len() <= 90 {
        s
    } else {
        seq!['…'] + s.skip(s.len() - 87)
    }
}

/// The path shown while scanning: at most 90 characters, long ones keep
/// their tail behind a `…`.
pub fn clean(s: &str) -> (r: String)
    ensures
        r@ == clean_text(s@),
{
    let cs = chars_of(s);
    if cs.len() <= CLEAN_MAX {
        return String::from_str(s);
    }
    let n = cs.len();
    let mut out: Vec<char> = Vec::new();
    out.push('…');
    let mut j: usize = n - (CLEAN_MAX - 3);
    while j < n
        invariant
            n == cs@.len(),
            n > 90,
            n - 87 <= j <= n,
            out@ == seq!['…'] + cs@.subrange(n - 87, j as int),
        decreases n - j,
    {
        out.push(cs[j]);
        j = j + 1;
        proof {
            assert(out@ =~= seq!['…'] + cs@.subrange(n - 87, j as int));
        }
    }
    proof {
        assert(cs@.subrange(n - 87, n as int) =~= cs@.skip(n - 87));
    }
    string_of(out.as_slice())
}


/// One key per `(device, inode)` pair: the device in the high half.
pub open spec fn inode_key(dev: u64, ino: u64) -> u128 {
    (dev as int * 0x1_0000_0000_0000_0000 + ino as int) as u128
}

/// Different inodes never share a key.
pub proof fn law_inode_keys_distinct(d1: u64, i1: u64, d2: u64, i2: u64)
    ensures
        inode_key(d1, i1) == inode_key(d2, i2) ==> d1 == d2 && i1 == i2,
{
    let k1 = d1 as int * 0x1_0000_0000_0000_0000 + i1 as int;
    let k2 = d2 as int * 0x1_0000_0000_0000_0000 + i2 as int;
    assert(0 <= k1 < 0x1_0000_0000_0000_0000_0000_0000_0000_0000) by (nonlinear_arith)
        requires
            k1 == d1 as int * 0x1_0000_0000_0000_0000 + i1 as int,
            0 <= d1 < 0x1_0000_0000_0000_0000,
            0 <= i1 < 0x1_0000_0000_0000_0000,
    ;
    assert(0 <= k2 < 0x1_0000_0000_0000_0000_0000_0000_0000_0000) by (nonlinear_arith)
        requires
            k2 == d2 as int * 0x1_0000_0000_0000_0000 + i2 as int,
            0 <= d2 < 0x1_0000_0000_0000_0000,
            0 <= i2 < 0x1_0000_0000_0000_0000,
    ;
    if k1 == k2 {
        vstd::arithmetic::div_mod::lemma_fundamental_div_mod_converse(k1, 0x1_0000_0000_0000_0000, d1 as int, i1 as int);
        vstd::arithmetic::div_mod::lemma_fundamental_div_mod_converse(k2, 0x1_0000_0000_0000_0000, d2 as int, i2 as int);
    }
}

/// The hardlinked files met so far, so that an inode with several names
/// counts once, as `du` counts it.
pub struct Inodes {
    pub seen: HashSet<u128>,
}

impl Inodes {
    pub fn new() -> (s: Self)
        ensures
            s.seen@ == Set::<u128>::empty(),
    {
        Inodes { seen: HashSet::new() }
    }

    /// True the first time the inode `ino` of device `dev` is met.
    pub fn first_sight(&mut self, dev: u64, ino: u64) -> (r: bool)
        ensures
            r == !old(self).seen@.contains(inode_key(dev, ino)),
            final(self).seen@ == old(self).seen@.insert(inode_key(dev, ino)),
    {
        broadcast use vstd::std_specs::hash::group_hash_axioms;
        let key: u128 = (dev as u128) * 0x1_0000_0000_0000_0000 + ino as u128;
        self.seen.insert(key)
    }
}

/// What one entry of the walk did to the tree.
#[derive(Clone, Copy, Debug, PartialEq, Eq, Structural)]
pub enum Taken {
    /// The scan root's own bytes.
    RootBytes,
    /// Another name of a file whose inode was already counted: nothing added.
    Repeat,
    /// A new node with this id.
    Added(NodeId),
}

/// A file with more than one name, whose inode must be counted once.
pub open spec fn linked(is_dir: bool, nlink: u64) -> bool {
    !is_dir && nlink > 1
}

/// An entry at `depth` that adds nothing: another name of an inode already met.
pub open spec fn repeats(seen: Set<u128>, depth: usize, is_dir: bool, nlink: u64, dev: u64, ino: u64) -> bool {
    depth > 0 && linked(is_dir, nlink) && seen.contains(inode_key(dev, ino))
}

/// The inodes met after an entry: a file with several names adds its inode.
pub open spec fn seen_after(seen: Set<u128>, depth: usize, is_dir: bool, nlink: u64, dev: u64, ino: u64) -> Set<u128> {
    if depth > 0 && linked(is_dir, nlink) {
        seen.insert(inode_key(dev, ino))
    } else {
        seen
    }
}

/// Law: a hardlinked inode counts once. After one of its names has been
/// taken, every later name of the same inode repeats it (and so, by
/// `take_entry`, leaves the tree as it was).
pub proof fn law_links_count_once(
    seen: Set<u128>,
    first_depth: usize,
    first_nlink: u64,
    later_depth: usize,
    later_nlink: u64,
    dev: u64,
    ino: u64,
)
    requires
        first_depth > 0,
        later_depth > 0,
        linked(false, first_nlink),
        linked(false, later_nlink),
    ensures
        repeats(seen_after(seen, first_depth, false, first_nlink, dev, ino), later_depth, false, later_nlink, dev, ino),
{
}

proof fn lemma_all_own_frame(n1: Seq<Node>, n2: Seq<Node>, k: int)
    requires
        0 <= k <= n1.len(),
        k <= n2.len(),
        forall|j: int| 0 <= j < k ==> (#[trigger] n1[j]).own == n2[j].own,
    ensures
        all_own(n1, k) == all_own(n2, k),
    decreases k,
{
    if k > 0 {
        lemma_all_own_frame(n1, n2, k - 1);
    }
}

/// Record one entry of a depth-first walk (`depth` 0 is the scan root
/// itself) of `size` bytes: the root's own bytes go to the root; a file with
/// several names whose inode was met before adds nothing; every other entry
/// becomes a node below the open directory at `depth - 1`, as `attach` puts it.
/// The root's total grows by `size` exactly when something was recorded.
pub fn take_entry(
    arena: &mut Arena,
    stack: &mut Vec<NodeId>,
    links: &mut Inodes,
    depth: usize,
    name: String,
    is_dir: bool,
    nlink: u64,
    dev: u64,
    ino: u64,
    size: u64,
    mtime: i64,
) -> (t: Taken)
    requires
        old(arena).wf(),
        forall|i: int| 0 <= i < old(stack)@.len() ==> (#[trigger] old(stack)@[i] as int) < old(arena).nodes@.len(),
        old(arena).nodes@.len() < u32::MAX,
        old(arena).nodes@[0].size + size <= u64::MAX,
        !is_dir ==> old(arena).nodes@[0].files + 1 <= u64::MAX,
    ensures
        final(arena).wf(),
        forall|i: int| 0 <= i < final(stack)@.len() ==> (#[trigger] final(stack)@[i] as int) < final(arena).nodes@.len(),
        final(links).seen@ == seen_after(old(links).seen@, depth, is_dir, nlink, dev, ino),
        depth == 0 ==> {
            &&& t == Taken::RootBytes
            &&& final(stack)@ == old(stack)@
            &&& final(arena).nodes@.len() == old(arena).nodes@.len()
            &&& final(arena).nodes@[0].own == old(arena).nodes@[0].own + size
            &&& final(arena).nodes@[0].size == old(arena).nodes@[0].size + size
            &&& final(arena).nodes@[0].files == old(arena).nodes@[0].files
            &&& final(arena).nodes@[0].name == old(arena).nodes@[0].name
            &&& final(arena).nodes@[0].parent == old(arena).nodes@[0].parent
            &&& final(arena).nodes@[0].children == old(arena).nodes@[0].children
            &&& final(arena).nodes@[0].is_dir == old(arena).nodes@[0].is_dir
            &&& final(arena).nodes@[0].mtime == old(arena).nodes@[0].mtime
            &&& forall|j: int| 0 < j < old(arena).nodes@.len() ==> final(arena).nodes@[j] == old(arena).nodes@[j]
        },
        repeats(old(links).seen@, depth, is_dir, nlink, dev, ino) ==> {
            &&& t == Taken::Repeat
            &&& *final(arena) == *old(arena)
            &&& final(stack)@ == old(stack)@
        },
        depth > 0 && !repeats(old(links).seen@, depth, is_dir, nlink, dev, ino) ==> {
            let kept = if depth < old(stack)@.len() { old(stack)@.take(depth as int) } else { old(stack)@ };
            let parent: NodeId = if kept.len() > 0 { kept.last() } else { 0 };
            let id = old(arena).nodes@.len() as int;
            &&& t == Taken::Added(id as NodeId)
            &&& final(arena).nodes@.len() == id + 1
            &&& final(arena).nodes@[id].parent == Some(parent)
            &&& final(arena).nodes@[id].name == name
            &&& final(arena).nodes@[id].own == size
            &&& final(arena).nodes@[id].is_dir == is_dir
            &&& final(arena).nodes@[id].mtime == mtime
            &&& final(arena).nodes@[id].children@.len() == 0
            &&& forall|j: int|
                0 <= j < id ==> {
                    let o = #[trigger] old(arena).nodes@[j];
                    let m = final(arena).nodes@[j];
                    &&& m.name == o.name
                    &&& m.parent == o.parent
                    &&& m.own == o.own
                    &&& m.is_dir == o.is_dir
                    &&& m.mtime == o.mtime
                    &&& m.children@ == if j == parent as int { o.children@.push(id as NodeId) } else { o.children@ }
                }
            &&& final(arena).nodes@[0].size == old(arena).nodes@[0].size + size
            &&& final(stack)@ == if is_dir { kept.push(id as NodeId) } else { kept }
        },
{
    if depth == 0 {
        arena.add_root_own(size);
        return Taken::RootBytes;
    }
    if !is_dir && nlink > 1 {
        if !links.first_sight(dev, ino) {
            return Taken::Repeat;
        }
    }
    let ghost n0 = arena.nodes@;
    proof {
        law_root_holds_everything(arena);
    }
    let id = arena.attach(stack, depth, name, is_dir, size, mtime);
    proof {
        let n1 = arena.nodes@;
        law_root_holds_everything(arena);
        lemma_all_own_frame(n0, n1, n0.len() as int);
        assert(all_own(n1, n1.len() as int) == all_own(n1, n0.len() as int) + size);
    }
    Taken::Added(id)
}

} // verus!
