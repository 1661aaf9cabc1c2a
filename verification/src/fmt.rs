//! Small formatting helpers (sizes, counts, width-aware truncation).
use vstd::prelude::*;
use crate::text::{chars_of, dec, decimal, decimal_chars, digit, digit_char, string_of};
use std::time::{Duration, SystemTime, UNIX_EPOCH};
use unicode_width::{UnicodeWidthChar, UnicodeWidthStr};

verus! {

/// Display width of a string, as the `unicode-width` crate measures it.
pub uninterp spec fn str_width(s: Seq<char>) -> usize;

/// Display width of one character (`None` for control characters), as the
/// `unicode-width` crate measures it.
pub uninterp spec fn char_width(c: char) -> Option<usize>;

/// Every character is printable ASCII, `' '` to `'~'`.
pub open spec fn plain_ascii(s: Seq<char>) -> bool {
    forall|i: int| 0 <= i < s.len() ==> ' ' <= #[trigger] s[i] <= '~'
}

/// `UnicodeWidthStr::width`: the result is `str_width` of the string's
/// characters. A string of printable ASCII (the empty string included) is as
/// wide as it is long, and so is one that adds a single `…` in front of or
/// after such a string (the ellipsis takes one column). How the crate
/// measures other strings is not stated.
#[verifier::external_body]
pub fn width(s: &str) -> (r: usize)
    ensures
        r == str_width(s@),
        plain_ascii(s@) ==> r == s@.len(),
        s@.len() > 0 && s@[0] == '…' && plain_ascii(s@.skip(1)) ==> r == s@.len(),
        s@.len() > 0 && s@.last() == '…' && plain_ascii(s@.drop_last()) ==> r == s@.len(),
{
    UnicodeWidthStr::width(s)
}

/// `UnicodeWidthChar::width`: the result is `char_width` of the character:
/// `None` for the control characters below U+0020 and from U+007F to U+009F,
/// one column for printable ASCII and for `…`. The crate's tables for the
/// other characters are not stated.
#[verifier::external_body]
fn char_cols(c: char) -> (r: Option<usize>)
    ensures
        r == char_width(c),
        (c as u32) < 0x20 ==> r is None,
        0x7F <= (c as u32) < 0xA0 ==> r is None,
        0x20 <= (c as u32) < 0x7F ==> r == Some(1usize),
        c == '…' ==> r == Some(1usize),
{
    UnicodeWidthChar::width(c)
}

/// Columns a character takes in a truncated string (control characters take none).
pub open spec fn cols(c: char) -> int {
    match char_width(c) {
        Some(w) => w as int,
        None => 0,
    }
}

/// Columns of all characters of `s`, each as `cols` counts it.
pub open spec fn colsum(s: Seq<char>) -> int
    decreases s.len(),
{
    if s.len() == 0 {
        0
    } else {
        colsum(s.drop_last()) + cols(s.last())
    }
}

proof fn lemma_colsum_concat(a: Seq<char>, b: Seq<char>)
    ensures
        colsum(a + b) == colsum(a) + colsum(b),
    decreases b.len(),
{
    if b.len() > 0 {
        lemma_colsum_concat(a, b.drop_last());
        assert((a + b).drop_last() =~= a + b.drop_last());
        assert((a + b).last() == b.last());
    } else {
        assert(a + b =~= a);
    }
}

/// 1024 to the power `i`.
pub open spec fn pow1024(i: nat) -> nat
    decreases i,
{
    if i == 0 {
        1
    } else {
        1024 * pow1024((i - 1) as nat)
    }
}

/// Index of the unit a size is shown in: the largest `i <= 5` with `bytes >= 1024^i`.
pub open spec fn unit_index(bytes: nat) -> nat {
    if bytes >= pow1024(5) {
        5
    } else if bytes >= pow1024(4) {
        4
    } else if bytes >= pow1024(3) {
        3
    } else if bytes >= pow1024(2) {
        2
    } else if bytes >= pow1024(1) {
        1
    } else {
        0
    }
}

pub open spec fn unit_char(i: nat) -> char {
    if i == 0 {
        'B'
    } else if i == 1 {
        'K'
    } else if i == 2 {
        'M'
    } else if i == 3 {
        'G'
    } else if i == 4 {
        'T'
    } else {
        'P'
    }
}

/// `a / b` rounded to the nearest integer, ties to even.
pub open spec fn round_even(a: nat, b: nat) -> nat {
    let q = a / b;
    let r = a % b;
    if 2 * r > b {
        q + 1
    } else if 2 * r < b {
        q
    } else if q % 2 == 0 {
        q
    } else {
        q + 1
    }
}

/// Spacing of the doubles around `b`, from `u` on: the first power of two
/// (doubling `u`, at most up to 2048) with `b < u * 2^53`.
pub open spec fn spacing(b: nat, u: nat) -> nat
    decreases 4096 - u,
{
    if u < 1 || u >= 2048 || b < u * 0x20_0000_0000_0000 {
        u
    } else {
        spacing(b, 2 * u)
    }
}

/// The value `b` has as a double (`b as f64`): `b` rounded to the nearest
/// multiple of the spacing of doubles around it, ties to even.
pub open spec fn as_double(b: nat) -> nat {
    let u = spacing(b, 1);
    round_even(b, u) * u
}

/// Human size, binary units: 813B, 4.0K, 1.2M, 12G — one decimal below 10
/// units, worked out on the size as a double.
pub open spec fn human_text(bytes: nat) -> Seq<char> {
    let v = as_double(bytes);
    let i = unit_index(v);
    let p = pow1024(i);
    if i == 0 {
        dec(bytes).push('B')
    } else if v < 10 * p {
        let t = round_even(10 * v, p);
        dec(t / 10).push('.') + dec(t % 10).push(unit_char(i))
    } else {
        dec(round_even(v, p)).push(unit_char(i))
    }
}

/// Law: the unit of a human size follows its magnitude: bytes below 1 KiB
/// are shown whole with `B`, and from there each unit covers a factor of
/// 1024: `K`, `M`, `G`, `T`, and `P` from 1 PiB on (for sizes a double holds
/// exactly, below 2^53 bytes).
pub proof fn law_human_unit(b: nat)
    requires
        b < 0x20_0000_0000_0000,
    ensures
        b < 1024 ==> human_text(b) == dec(b).push('B'),
        ({
            let u = human_text(b).last();
            &&& b < 1024 ==> u == 'B'
            &&& 1024 <= b < 1024 * 1024 ==> u == 'K'
            &&& 1024 * 1024 <= b < 1024 * 1024 * 1024 ==> u == 'M'
            &&& 1024 * 1024 * 1024 <= b < 1024 * 1024 * 1024 * 1024 ==> u == 'G'
            &&& 1024 * 1024 * 1024 * 1024 <= b < 1024 * 1024 * 1024 * 1024 * 1024 ==> u == 'T'
            &&& 1024 * 1024 * 1024 * 1024 * 1024 <= b ==> u == 'P'
        }),
{
    reveal_with_fuel(pow1024, 6);
    assert(spacing(b, 1) == 1);
    assert(b / 1 == b && b % 1 == 0);
    assert(round_even(b, 1) == b);
    assert(as_double(b) == b);
}

fn round_even_exec(a: u128, b: u128) -> (r: u128)
    requires
        b > 0,
        b <= u64::MAX,
        a < 0x1_0000_0000_0000_0000_0000_0000_0000,
    ensures
        r == round_even(a as nat, b as nat),
{
    let q = a / b;
    let r = a % b;
    if 2 * r > b {
        q + 1
    } else if 2 * r < b {
        q
    } else if q % 2 == 0 {
        q
    } else {
        q + 1
    }
}

/// The value `b` has as a double.
fn double_value(b: u64) -> (v: u128)
    ensures
        v == as_double(b as nat),
        v <= 0x1_0000_0000_0000_1000,
{
    let mut u: u128 = 1;
    while u < 2048 && (b as u128) >= u * 0x20_0000_0000_0000
        invariant
            1 <= u < 4096,
            spacing(b as nat, 1) == spacing(b as nat, u as nat),
        decreases 4096 - u,
    {
        u = u * 2;
    }
    let q = round_even_exec(b as u128, u);
    proof {
        assert(spacing(b as nat, u as nat) == u);
        let bi = b as int;
        let ui = u as int;
        let qi = q as int;
        assert(qi <= bi / ui + 1) by (nonlinear_arith)
            requires
                qi == round_even(bi as nat, ui as nat),
                ui >= 1,
                bi >= 0,
        {}
        assert(qi * ui <= 0x1_0000_0000_0000_1000) by (nonlinear_arith)
            requires
                qi <= bi / ui + 1,
                qi >= 0,
                ui >= 1,
                ui < 4096,
                0 <= bi < 0x1_0000_0000_0000_0000,
        {
            assert((bi / ui) * ui <= bi);
            assert(qi * ui <= (bi / ui + 1) * ui);
        }
    }
    q * u
}

/// Human size, binary units: 813B, 4.0K, 1.2M, 12G.
pub fn human(bytes: u64) -> (s: String)
    ensures
        s@ == human_text(bytes as nat),
{
    let units: [char; 6] = ['B', 'K', 'M', 'G', 'T', 'P'];
    let v = double_value(bytes);
    let mut i: usize = 0;
    let mut p: u128 = 1;
    proof {
        reveal_with_fuel(pow1024, 6);
    }
    while i < 5 && v / 1024 >= p
        invariant
            0 <= i <= 5,
            p == pow1024(i as nat),
            p <= 0x4_0000_0000_0000,
            i > 0 ==> v >= p,
            pow1024(1) == 1024 && pow1024(2) == 1048576 && pow1024(3) == 1073741824
                && pow1024(4) == 1099511627776 && pow1024(5) == 1125899906842624,
        decreases 5 - i,
    {
        p = p * 1024;
        i = i + 1;
    }
    proof {
        assert(i as nat == unit_index(v as nat));
    }
    let unit = units[i];
    let mut out: Vec<char>;
    if i == 0 {
        out = decimal_chars(bytes);
        out.push('B');
    } else if v < 10 * p {
        let t = round_even_exec(10 * v, p);
        proof {
            let a = 10 * v as int;
            let pp = p as int;
            assert(a / pp < 100) by (nonlinear_arith)
                requires
                    a < 100 * pp,
                    pp > 0,
                    a >= 0,
            {
                if a / pp >= 100 {
                    assert(a >= (a / pp) * pp);
                    assert((a / pp) * pp >= 100 * pp);
                }
            }
            assert(t <= 100);
        }
        out = decimal_chars((t / 10) as u64);
        out.push('.');
        out.push(digit((t % 10) as u64));
        out.push(unit);
        proof {
            assert(dec((t % 10) as nat) =~= seq![digit_char((t % 10) as int)]);
        }
    } else {
        let t = round_even_exec(v, p);
        proof {
            let (ti, vi, pi) = (t as int, v as int, p as int);
            assert(ti <= vi / pi + 1) by (nonlinear_arith)
                requires
                    ti == round_even(vi as nat, pi as nat),
                    pi >= 1,
                    vi >= 0,
            {}
            assert(ti <= u64::MAX) by (nonlinear_arith)
                requires
                    ti <= vi / pi + 1,
                    pi >= 1024,
                    0 <= vi <= 0x1_0000_0000_0000_1000,
            {
                assert(vi / pi <= vi / 1024);
            }
        }
        out = decimal_chars(t as u64);
        out.push(unit);
    }
    proof {
        assert(out@ =~= human_text(bytes as nat));
    }
    string_of(out.as_slice())
}

/// Three decimal digits, with leading zeros.
pub open spec fn pad3(m: nat) -> Seq<char> {
    seq![digit_char((m / 100) as int), digit_char(((m / 10) % 10) as int), digit_char((m % 10) as int)]
}

/// Decimal with thousands separators: 1234567 -> 1,234,567.
pub open spec fn grouped(n: nat) -> Seq<char>
    decreases n,
{
    if n < 1000 {
        dec(n)
    } else {
        grouped(n / 1000).push(',') + pad3(n % 1000)
    }
}

fn grouped_chars(n: u64) -> (v: Vec<char>)
    ensures
        v@ == grouped(n as nat),
    decreases n,
{
    if n < 1000 {
        decimal_chars(n)
    } else {
        let mut v = grouped_chars(n / 1000);
        let m = n % 1000;
        v.push(',');
        v.push(digit(m / 100));
        v.push(digit((m / 10) % 10));
        v.push(digit(m % 10));
        proof {
            assert(v@ =~= grouped(n as nat));
        }
        v
    }
}

/// Thousands separators: 1234567 -> 1,234,567
pub fn group(n: u64) -> (s: String)
    ensures
        s@ == grouped(n as nat),
{
    let v = grouped_chars(n);
    string_of(v.as_slice())
}

/// `s` without its commas.
pub open spec fn strip_commas(s: Seq<char>) -> Seq<char>
    decreases s.len(),
{
    if s.len() == 0 {
        s
    } else {
        let r = strip_commas(s.drop_last());
        if s.last() == ',' {
            r
        } else {
            r.push(s.last())
        }
    }
}

proof fn lemma_strip_concat(a: Seq<char>, b: Seq<char>)
    ensures
        strip_commas(a + b) == strip_commas(a) + strip_commas(b),
    decreases b.len(),
{
    if b.len() > 0 {
        lemma_strip_concat(a, b.drop_last());
        assert((a + b).drop_last() =~= a + b.drop_last());
        assert((a + b).last() == b.last());
    } else {
        assert(a + b =~= a);
        assert(strip_commas(a) + strip_commas(b) =~= strip_commas(a));
    }
}

proof fn lemma_strip_plain(s: Seq<char>)
    requires
        forall|i: int| 0 <= i < s.len() ==> s[i] != ',',
    ensures
        strip_commas(s) == s,
    decreases s.len(),
{
    if s.len() > 0 {
        lemma_strip_plain(s.drop_last());
        assert(s.last() == s[s.len() - 1]);
        assert(s.drop_last().push(s.last()) =~= s);
    }
}

proof fn lemma_dec_digits(n: nat)
    ensures
        dec(n).len() >= 1,
        forall|i: int| 0 <= i < dec(n).len() ==> dec(n)[i] != ',',
    decreases n,
{
    if n >= 10 {
        lemma_dec_digits(n / 10);
        let d = dec(n / 10);
        assert forall|i: int| 0 <= i < dec(n).len() implies dec(n)[i] != ',' by {
            if i < d.len() {
                assert(dec(n)[i] == d[i]);
            }
        }
    }
}

proof fn lemma_dec_split(q: nat, r: nat)
    requires
        q >= 1,
        r < 1000,
    ensures
        dec(q * 1000 + r) == dec(q) + pad3(r),
{
    let m = q * 1000 + r;
    let m1 = q * 100 + r / 10;
    let m2 = q * 10 + r / 100;
    assert(m / 10 == m1 && m % 10 == r % 10) by (nonlinear_arith)
        requires
            m == q * 1000 + r,
            m1 == q * 100 + r / 10,
            r < 1000,
    ;
    assert(m1 / 10 == m2 && m1 % 10 == (r / 10) % 10) by (nonlinear_arith)
        requires
            m1 == q * 100 + r / 10,
            m2 == q * 10 + r / 100,
            r < 1000,
    ;
    assert(m2 / 10 == q && m2 % 10 == r / 100) by (nonlinear_arith)
        requires
            m2 == q * 10 + r / 100,
            r < 1000,
    ;
    assert(m >= 10 && m1 >= 10 && m2 >= 10) by (nonlinear_arith)
        requires
            m == q * 1000 + r,
            m1 == q * 100 + r / 10,
            m2 == q * 10 + r / 100,
            q >= 1,
    ;
    assert(dec(m2) == dec(q).push(digit_char((r / 100) as int)));
    assert(dec(m1) == dec(m2).push(digit_char(((r / 10) % 10) as int)));
    assert(dec(m) == dec(m1).push(digit_char((r % 10) as int)));
    assert(dec(m) =~= dec(q) + pad3(r));
}

/// Law: removing the commas from a grouped number gives its plain decimal.
pub proof fn law_group_strips_to_decimal(n: nat)
    ensures
        strip_commas(grouped(n)) == dec(n),
    decreases n,
{
    if n >= 1000 {
        let q = n / 1000;
        let r = n % 1000;
        law_group_strips_to_decimal(q);
        lemma_dec_split(q, r);
        let g = grouped(q).push(',');
        assert(g.drop_last() =~= grouped(q));
        lemma_strip_concat(g, pad3(r));
        assert forall|i: int| 0 <= i < pad3(r).len() implies pad3(r)[i] != ',' by {}
        lemma_strip_plain(pad3(r));
    } else {
        lemma_dec_digits(n);
        lemma_strip_plain(dec(n));
    }
}

/// Law: in a grouped number a comma stands exactly at every fourth place
/// from the right (after each three digits), and never first.
pub proof fn law_group_commas(n: nat)
    ensures
        grouped(n).len() >= 1,
        grouped(n)[0] != ',',
        forall|i: int|
            0 <= i < grouped(n).len() ==> (#[trigger] grouped(n)[i] == ',' <==> (grouped(n).len() - 1 - i) % 4 == 3),
    decreases n,
{
    if n >= 1000 {
        let q = n / 1000;
        let r = n % 1000;
        law_group_commas(q);
        let gq = grouped(q);
        let g = grouped(n);
        assert(g =~= gq.push(',') + pad3(r));
        assert(g[0] == gq[0]);
        assert forall|i: int| 0 <= i < g.len() implies (#[trigger] g[i] == ',' <==> (g.len() - 1 - i) % 4 == 3) by {
            if i < gq.len() {
                assert(g[i] == gq[i]);
                assert((g.len() - 1 - i) % 4 == (gq.len() - 1 - i) % 4);
            } else if i == gq.len() {
            } else {
                assert(g[i] == pad3(r)[i - gq.len() - 1]);
            }
        }
    } else {
        lemma_dec_digits(n);
        assert forall|i: int| 0 <= i < grouped(n).len() implies (#[trigger] grouped(n)[i] == ',' <==> (grouped(n).len() - 1 - i) % 4 == 3) by {
            assert(dec(n).len() <= 3) by {
                if n >= 100 {
                    assert(dec(n / 10).len() == 2) by {
                        assert(dec(n / 10 / 10).len() == 1);
                    }
                } else if n >= 10 {
                    assert(dec(n / 10).len() == 1);
                }
            }
        }
    }
}

/// How many leading characters of `cs` fit in `budget` columns, taken one by
/// one until the next would not fit.
pub open spec fn fit_front(cs: Seq<char>, budget: int, k: int, used: int) -> int
    decreases cs.len() - k,
{
    if k < 0 || k >= cs.len() || used + cols(cs[k]) > budget {
        k
    } else {
        fit_front(cs, budget, k + 1, used + cols(cs[k]))
    }
}

/// How many trailing characters of `cs` fit in `budget` columns, taken one by
/// one from the end until the next would not fit.
pub open spec fn fit_back(cs: Seq<char>, budget: int, k: int, used: int) -> int
    decreases cs.len() - k,
{
    if k < 0 || k >= cs.len() || used + cols(cs[cs.len() - 1 - k]) > budget {
        k
    } else {
        fit_back(cs, budget, k + 1, used + cols(cs[cs.len() - 1 - k]))
    }
}

/// `s` cut to `max` columns, the cut marked with a single `…`.
pub open spec fn truncated(s: Seq<char>, max: nat) -> Seq<char> {
    if max == 0 {
        Seq::empty()
    } else if str_width(s) <= max {
        s
    } else {
        s.take(fit_front(s, max - 1, 0, 0)).push('…')
    }
}

/// `s` cut to its last `max` columns, the cut marked with a leading `…`.
pub open spec fn truncated_start(s: Seq<char>, max: nat) -> Seq<char> {
    if str_width(s) <= max || max == 0 {
        s
    } else {
        seq!['…'] + s.skip(s.len() - fit_back(s, max - 1, 0, 0))
    }
}

proof fn lemma_fit_front_range(cs: Seq<char>, budget: int, k: int, used: int)
    requires
        0 <= k <= cs.len(),
    ensures
        k <= fit_front(cs, budget, k, used) <= cs.len(),
    decreases cs.len() - k,
{
    if k < cs.len() && used + cols(cs[k]) <= budget {
        lemma_fit_front_range(cs, budget, k + 1, used + cols(cs[k]));
    }
}

proof fn lemma_fit_back_range(cs: Seq<char>, budget: int, k: int, used: int)
    requires
        0 <= k <= cs.len(),
    ensures
        k <= fit_back(cs, budget, k, used) <= cs.len(),
    decreases cs.len() - k,
{
    if k < cs.len() && used + cols(cs[cs.len() - 1 - k]) <= budget {
        lemma_fit_back_range(cs, budget, k + 1, used + cols(cs[cs.len() - 1 - k]));
    }
}

/// Truncate to `max` columns, marking the cut with a single `…`.
pub fn truncate(s: &str, max: usize) -> (r: String)
    ensures
        r@ == truncated(s@, max as nat),
        plain_ascii(s@) && s@.len() <= max ==> r@ == s@,
        plain_ascii(s@) && s@.len() > max > 0 ==> r@ == s@.take(max - 1).push('…'),
        plain_ascii(s@) ==> r@.len() <= max,
        max > 0 && str_width(s@) > max ==> colsum(r@) <= max,
{
    if max == 0 {
        return String::new();
    }
    let total = width(s);
    if total <= max {
        return String::from_str(s);
    }
    let cs = chars_of(s);
    let budget = max - 1;
    let mut k: usize = 0;
    let mut used: usize = 0;
    let mut fitting = true;
    while fitting && k < cs.len()
        invariant
            cs@ == s@,
            0 <= k <= cs@.len(),
            used <= budget,
            fit_front(cs@, budget as int, k as int, used as int) == fit_front(cs@, budget as int, 0, 0),
            !fitting ==> fit_front(cs@, budget as int, k as int, used as int) == k,
            used == colsum(cs@.take(k as int)),
            plain_ascii(cs@) ==> used == k,
            plain_ascii(cs@) && !fitting ==> used == budget,
        decreases cs@.len() - k, if fitting { 1int } else { 0int },
    {
        let cw = match char_cols(cs[k]) {
            Some(w) => w,
            None => 0,
        };
        proof {
            assert(cs@.take(k as int + 1).drop_last() =~= cs@.take(k as int));
            assert(cs@.take(k as int + 1).last() == cs@[k as int]);
            if plain_ascii(cs@) {
                assert(' ' <= cs@[k as int] <= '~');
            }
        }
        if cw > budget - used {
            fitting = false;
        } else {
            used = used + cw;
            k = k + 1;
        }
    }
    // The mark takes one column, so the cut text fits `max` columns.
    let mark = char_cols('…');
    proof {
        assert(mark == Some(1usize));
        if plain_ascii(cs@) {
            assert(k == budget);
        }
    }
    proof {
        lemma_fit_front_range(cs@, budget as int, 0, 0);
    }
    let mut out: Vec<char> = Vec::new();
    let mut j: usize = 0;
    while j < k
        invariant
            0 <= j <= k <= cs@.len(),
            out@ == cs@.take(j as int),
        decreases k - j,
    {
        out.push(cs[j]);
        j = j + 1;
        proof {
            assert(out@ =~= cs@.take(j as int));
        }
    }
    out.push('…');
    proof {
        let t = cs@.take(k as int);
        assert(out@ =~= t + seq!['…']);
        lemma_colsum_concat(t, seq!['…']);
        assert(seq!['…'].drop_last() =~= Seq::<char>::empty());
        assert(seq!['…'].last() == '…');
        assert(char_width('…') == Some(1usize));
        assert(cols('…') == 1);
        assert(colsum(seq!['…']) == colsum(Seq::<char>::empty()) + cols('…'));
        assert(colsum(seq!['…']) == 1);
    }
    string_of(out.as_slice())
}

/// Keep the tail, which is usually the informative part of a path.
pub fn truncate_start(s: &str, max: usize) -> (r: String)
    ensures
        r@ == truncated_start(s@, max as nat),
        plain_ascii(s@) && s@.len() <= max ==> r@ == s@,
        plain_ascii(s@) && s@.len() > max > 0 ==> r@ == seq!['…'] + s@.skip(s@.len() - (max - 1)),
        plain_ascii(s@) && max > 0 ==> r@.len() <= max,
        max > 0 && str_width(s@) > max ==> colsum(r@) <= max,
{
    if width(s) <= max || max == 0 {
        return String::from_str(s);
    }
    let cs = chars_of(s);
    let n = cs.len();
    let budget = max - 1;
    let mut k: usize = 0;
    let mut used: usize = 0;
    let mut fitting = true;
    while fitting && k < n
        invariant
            cs@ == s@,
            n == cs@.len(),
            0 <= k <= n,
            used <= budget,
            fit_back(cs@, budget as int, k as int, used as int) == fit_back(cs@, budget as int, 0, 0),
            !fitting ==> fit_back(cs@, budget as int, k as int, used as int) == k,
            used == colsum(cs@.skip(n - k)),
            plain_ascii(cs@) ==> used == k,
            plain_ascii(cs@) && !fitting ==> used == budget,
        decreases n - k, if fitting { 1int } else { 0int },
    {
        let cw = match char_cols(cs[n - 1 - k]) {
            Some(w) => w,
            None => 0,
        };
        proof {
            let c = cs@[n - 1 - k];
            assert(cs@.skip(n - k - 1) =~= seq![c] + cs@.skip(n - k));
            lemma_colsum_concat(seq![c], cs@.skip(n - k));
            assert(seq![c].drop_last() =~= Seq::<char>::empty());
            assert(seq![c].last() == c);
            assert(colsum(seq![c]) == colsum(Seq::<char>::empty()) + cols(c));
            assert(colsum(cs@.skip(n - k - 1)) == cols(c) + colsum(cs@.skip(n - k)));
            if plain_ascii(cs@) {
                assert(' ' <= c <= '~');
            }
        }
        if cw > budget - used {
            fitting = false;
        } else {
            used = used + cw;
            k = k + 1;
        }
    }
    // The mark takes one column, so the kept tail and the mark fit `max`.
    let mark = char_cols('…');
    proof {
        lemma_fit_back_range(cs@, budget as int, 0, 0);
        assert(mark == Some(1usize));
        assert(cs@.skip(n as int) =~= Seq::<char>::empty());
        if plain_ascii(cs@) {
            assert(k == budget);
        }
    }
    let mut out: Vec<char> = Vec::new();
    out.push('…');
    let mut j: usize = n - k;
    while j < n
        invariant
            n == cs@.len(),
            k <= n,
            n - k <= j <= n,
            out@ == seq!['…'] + cs@.subrange(n - k, j as int),
        decreases n - j,
    {
        out.push(cs[j]);
        j = j + 1;
        proof {
            assert(out@ =~= seq!['…'] + cs@.subrange(n - k, j as int));
        }
    }
    proof {
        assert(cs@.subrange(n - k, n as int) =~= cs@.skip(n - k));
        let t = cs@.skip(n - k);
        lemma_colsum_concat(seq!['…'], t);
        assert(seq!['…'].drop_last() =~= Seq::<char>::empty());
        assert(seq!['…'].last() == '…');
        assert(cols('…') == 1);
        assert(colsum(seq!['…']) == colsum(Seq::<char>::empty()) + cols('…'));
    }
    string_of(out.as_slice())
}

/// Coarse relative age of a modification time `mtime`, seen at time `now`
/// (both in seconds since the Unix epoch): "now", "5m", "3h", "12d", "5 months", "2y".
pub open spec fn age_text(mtime: int, now: int) -> Seq<char> {
    if mtime <= 0 {
        seq!['-']
    } else {
        let secs = if now - mtime > 0 { now - mtime } else { 0 };
        let mins = secs / 60;
        if mins == 0 {
            seq!['n', 'o', 'w']
        } else if mins < 60 {
            dec(mins as nat).push('m')
        } else {
            let hours = mins / 60;
            if hours < 48 {
                dec(hours as nat).push('h')
            } else {
                let days = hours / 24;
                if days < 60 {
                    dec(days as nat).push('d')
                } else {
                    let months = days / 30;
                    if months < 24 {
                        dec(months as nat) + seq![' ', 'm', 'o', 'n', 't', 'h', 's']
                    } else {
                        dec((days / 365) as nat).push('y')
                    }
                }
            }
        }
    }
}

/// Relative age of `mtime` as seen at `now`: "2h", "3d", "5 months".
pub fn age_at(mtime: i64, now: i64) -> (s: String)
    ensures
        s@ == age_text(mtime as int, now as int),
{
    let mut out: Vec<char>;
    if mtime <= 0 {
        out = Vec::new();
        out.push('-');
        proof {
            assert(out@ =~= age_text(mtime as int, now as int));
        }
        return string_of(out.as_slice());
    }
    let secs: i64 = if now > mtime { now - mtime } else { 0 };
    let mins: i64 = secs / 60;
    if mins == 0 {
        out = Vec::new();
        out.push('n');
        out.push('o');
        out.push('w');
    } else if mins < 60 {
        out = decimal_chars(mins as u64);
        out.push('m');
    } else {
        let hours = mins / 60;
        if hours < 48 {
            out = decimal_chars(hours as u64);
            out.push('h');
        } else {
            let days = hours / 24;
            if days < 60 {
                out = decimal_chars(days as u64);
                out.push('d');
            } else {
                let months = days / 30;
                if months < 24 {
                    out = decimal_chars(months as u64);
                    out.push(' ');
                    out.push('m');
                    out.push('o');
                    out.push('n');
                    out.push('t');
                    out.push('h');
                    out.push('s');
                } else {
                    out = decimal_chars((days / 365) as u64);
                    out.push('y');
                }
            }
        }
    }
    proof {
        assert(out@ =~= age_text(mtime as int, now as int));
    }
    string_of(out.as_slice())
}

/// `std::time::SystemTime`, carried through unopened: a reading of the clock.
#[verifier::external_type_specification]
#[verifier::external_body]
pub struct ExSystemTime(SystemTime);

/// `SystemTime::now()`: the wall clock; nothing is stated of the reading.
#[verifier::external_body]
fn clock_now() -> SystemTime {
    SystemTime::now()
}

/// `SystemTime::duration_since(UNIX_EPOCH)`: how long after the epoch `t`
/// lies, `None` for a time before it. Nothing is stated of the duration.
#[verifier::external_body]
fn since_epoch(t: SystemTime) -> Option<Duration> {
    t.duration_since(UNIX_EPOCH).ok()
}

/// `Duration::as_secs`: whole seconds; nothing is stated of the number.
#[verifier::external_body]
fn whole_secs(d: Duration) -> u64 {
    d.as_secs()
}

/// Relative age, coarse: "2h", "3d", "5 months". The result is `age_text` of
/// `mtime` at some reading `now` of the wall clock (0 when the clock reads
/// before the epoch).
pub fn age(mtime: i64) -> (s: String)
    ensures
        mtime <= 0 ==> s@ == seq!['-'],
        exists|now: i64| s@ == age_text(mtime as int, now as int),
{
    if mtime <= 0 {
        return age_at(mtime, 0);
    }
    let now: i64 = match since_epoch(clock_now()) {
        Some(d) => #[verifier::truncate] (whole_secs(d) as i64),
        None => 0,
    };
    age_at(mtime, now)
}

} // verus!
