//! The pure parts of the interactive view: the breadcrumb trail above the
//! treemap, how the header and the help box share the screen, and the base64
//! payload of the OSC 52 clipboard escape.
use vstd::prelude::*;
use crate::arena::{path_of, shape_ok, Arena, Node, NodeId};
use crate::text::{
    append_chars, chars_of, contains_chars, lower, lower_chars, mentions, parse_u32, parsed_u32,
    same_chars, string_of,
};
use vstd::string::StringSliceAdditionalSpecFns;

verus! {

/// Nodes from the root down to `j`, root first.
pub open spec fn anc_chain(n: Seq<Node>, j: int) -> Seq<int>
    decreases j,
{
    if 0 <= j < n.len() {
        match n[j].parent {
            Some(p) => if (p as int) < j {
                anc_chain(n, p as int).push(j)
            } else {
                seq![j]
            },
            None => seq![j],
        }
    } else {
        Seq::empty()
    }
}

/// Most crumbs shown; a longer trail keeps its last five behind an ellipsis.
pub const CRUMB_MAX: usize = 6;

pub open spec fn ellipsis() -> Seq<char> {
    seq!['…']
}

/// Crumb `i` of the trail to `j`: index into the full chain it shows.
pub open spec fn crumb_source(len: int, i: int) -> int {
    if len > 6 { len - 6 + i } else { i }
}

proof fn lemma_chain_shape(n: Seq<Node>, j: int)
    requires
        shape_ok(n),
        0 <= j < n.len(),
    ensures
        anc_chain(n, j).len() >= 1,
        anc_chain(n, j).last() == j,
        anc_chain(n, j)[0] == 0,
        forall|k: int| 0 <= k < anc_chain(n, j).len() ==> 0 <= #[trigger] anc_chain(n, j)[k] <= j,
        forall|k: int| 0 < k < anc_chain(n, j).len() ==> n[anc_chain(n, j)[k]].parent == Some(#[trigger] anc_chain(n, j)[k - 1] as u32),
    decreases j,
{
    if j > 0 {
        let p = n[j].parent->0 as int;
        lemma_chain_shape(n, p);
        let c = anc_chain(n, p);
        assert(anc_chain(n, j) == c.push(j));
        assert forall|k: int| 0 < k < anc_chain(n, j).len() implies n[anc_chain(n, j)[k]].parent == Some(#[trigger] anc_chain(n, j)[k - 1] as u32) by {
            if k == c.len() {
                assert(anc_chain(n, j)[k - 1] == p);
            }
        }
    }
}

/// The breadcrumb trail to `node`: `(name, path)` of every node from the root
/// down, shortened to an ellipsis crumb and the last five when longer than six.
pub fn crumb_chain(arena: &Arena, node: NodeId) -> (r: Vec<(String, String)>)
    requires
        arena.wf(),
        (node as int) < arena.nodes@.len(),
    ensures
        ({
            let n = arena.nodes@;
            let full = anc_chain(n, node as int);
            let len = full.len() as int;
            &&& r@.len() == (if len > 6 { 6 } else { len })
            &&& len > 6 ==> r@[0].0@ == ellipsis() && r@[0].1@ == path_of(n, full[len - 5])
            &&& forall|i: int|
                0 <= i < r@.len() && !(len > 6 && i == 0) ==> {
                    let j = full[crumb_source(len, i)];
                    &&& (#[trigger] r@[i]).0@ == n[j].name@
                    &&& r@[i].1@ == path_of(n, j)
                }
        }),
{
    let ghost n = arena.nodes@;
    proof {
        lemma_chain_shape(n, node as int);
    }
    let ghost full = anc_chain(n, node as int);
    // Walk up from `node`; `up` holds the chain leaf first.
    let mut up: Vec<NodeId> = Vec::new();
    let mut cur: NodeId = node;
    loop
        invariant_except_break
            (cur as int) < n.len(),
            anc_chain(n, cur as int).len() + up@.len() == full.len(),
            forall|k: int| 0 <= k < anc_chain(n, cur as int).len() ==> #[trigger] anc_chain(n, cur as int)[k] == full[k],
        invariant
            n == arena.nodes@,
            shape_ok(n),
            full == anc_chain(n, node as int),
            up@.len() <= full.len(),
            forall|k: int| 0 <= k < up@.len() ==> (#[trigger] up@[k]) as int == full[full.len() - 1 - k],
        ensures
            up@.len() == full.len(),
        decreases cur,
    {
        proof {
            lemma_chain_shape(n, cur as int);
        }
        up.push(cur);
        match arena.nodes[cur as usize].parent {
            Some(p) => {
                proof {
                    let c = anc_chain(n, p as int);
                    assert(anc_chain(n, cur as int) == c.push(cur as int));
                    assert forall|k: int| 0 <= k < up@.len() implies (#[trigger] up@[k]) as int == full[full.len() - 1 - k] by {
                        if k == up@.len() - 1 {
                            assert(anc_chain(n, cur as int)[c.len() as int] == cur);
                        }
                    }
                    assert forall|k: int| 0 <= k < c.len() implies #[trigger] c[k] == full[k] by {
                        assert(anc_chain(n, cur as int)[k] == c[k]);
                    }
                }
                cur = p;
            },
            None => {
                proof {
                    assert(anc_chain(n, cur as int) == seq![cur as int]);
                    assert(anc_chain(n, cur as int)[0] == full[0]);
                }
                break;
            },
        }
    }
    let len = up.len();
    let mut out: Vec<(String, String)> = Vec::new();
    let start: usize = if len > 6 { len - 5 } else { 0 };
    if len > 6 {
        let first = up[len - 1 - start];
        proof {
            assert(up@[len - 1 - start] as int == full[full.len() - 1 - (len - 1 - start)]);
            lemma_chain_shape(n, node as int);
        }
        let p = arena.path_string(first);
        let e = "…";
        proof {
            reveal_strlit("…");
            assert(e@ =~= ellipsis());
        }
        out.push((e.to_owned(), p));
    }
    let mut k = start;
    while k < len
        invariant
            n == arena.nodes@,
            arena.wf(),
            len == up@.len(),
            len == full.len(),
            start == (if len > 6 { len - 5 } else { 0 }),
            start <= k <= len,
            forall|m: int| 0 <= m < up@.len() ==> (#[trigger] up@[m]) as int == full[full.len() - 1 - m],
            forall|m: int| 0 <= m < full.len() ==> 0 <= #[trigger] full[m] < n.len(),
            out@.len() == (if len > 6 { 1int } else { 0int }) + (k - start),
            len > 6 ==> out@[0].0@ == ellipsis() && out@[0].1@ == path_of(n, full[len - 5]),
            forall|i: int|
                0 <= i < out@.len() && !(len > 6 && i == 0) ==> {
                    let j = full[crumb_source(len as int, i)];
                    &&& (#[trigger] out@[i]).0@ == n[j].name@
                    &&& out@[i].1@ == path_of(n, j)
                },
        decreases len - k,
    {
        let id = up[len - 1 - k];
        let name = arena.nodes[id as usize].name.clone();
        let path = arena.path_string(id);
        out.push((name, path));
        k = k + 1;
    }
    out
}

/// The base64 alphabet.
pub open spec fn b64_char(i: int) -> char {
    if i < 26 {
        (65 + i) as char
    } else if i < 52 {
        (97 + (i - 26)) as char
    } else if i < 62 {
        (48 + (i - 52)) as char
    } else if i == 62 {
        '+'
    } else {
        '/'
    }
}

/// Standard base64 with `=` padding, three bytes to four characters.
pub open spec fn b64(d: Seq<u8>) -> Seq<char>
    decreases d.len(),
{
    if d.len() == 0 {
        Seq::empty()
    } else if d.len() == 1 {
        let n = d[0] as int * 65536;
        seq![b64_char(n / 262144), b64_char((n / 4096) % 64), '=', '=']
    } else if d.len() == 2 {
        let n = d[0] as int * 65536 + d[1] as int * 256;
        seq![b64_char(n / 262144), b64_char((n / 4096) % 64), b64_char((n / 64) % 64), '=']
    } else {
        let n = d[0] as int * 65536 + d[1] as int * 256 + d[2] as int;
        seq![b64_char(n / 262144), b64_char((n / 4096) % 64), b64_char((n / 64) % 64), b64_char(n % 64)]
            + b64(d.skip(3))
    }
}

fn sextet(i: u32) -> (c: char)
    requires
        i < 64,
    ensures
        c == b64_char(i as int),
{
    if i < 26 {
        let b: u8 = 65 + i as u8;
        b as char
    } else if i < 52 {
        let b: u8 = 97 + (i - 26) as u8;
        b as char
    } else if i < 62 {
        let b: u8 = 48 + (i - 52) as u8;
        b as char
    } else if i == 62 {
        '+'
    } else {
        '/'
    }
}

/// Base64 of `data`, for the OSC 52 clipboard escape.
pub fn base64(data: &[u8]) -> (s: String)
    ensures
        s@ == b64(data@),
{
    let mut out: Vec<char> = Vec::new();
    let mut i: usize = 0;
    proof {
        assert(data@.skip(0) =~= data@);
    }
    while i < data.len()
        invariant
            i <= data@.len(),
            b64(data@) == out@ + b64(data@.skip(i as int)),
        decreases data@.len() - i,
    {
        let ghost rest = data@.skip(i as int);
        let left = data.len() - i;
        let b0 = data[i] as u32;
        let b1 = if left > 1 { data[i + 1] as u32 } else { 0 };
        let b2 = if left > 2 { data[i + 2] as u32 } else { 0 };
        let n: u32 = b0 * 65536 + b1 * 256 + b2;
        let ghost before = out@;
        out.push(sextet(n / 262144));
        out.push(sextet((n / 4096) % 64));
        out.push(if left > 1 { sextet((n / 64) % 64) } else { '=' });
        out.push(if left > 2 { sextet(n % 64) } else { '=' });
        proof {
            if left > 2 {
                assert(rest.skip(3) =~= data@.skip(i + 3));
            }
        }
        if left > 3 {
            i = i + 3;
        } else {
            i = data.len();
            proof {
                assert(data@.skip(i as int) =~= Seq::<u8>::empty());
            }
        }
        proof {
            assert(b64(data@) == out@ + b64(data@.skip(i as int)));
        }
    }
    proof {
        assert(data@.skip(i as int) =~= Seq::<u8>::empty());
    }
    string_of(out.as_slice())
}


/// Base64 turns every started group of three bytes into four characters.
pub proof fn law_base64_len(d: Seq<u8>)
    ensures
        b64(d).len() == 4 * ((d.len() + 2) / 3),
    decreases d.len(),
{
    if d.len() > 2 {
        law_base64_len(d.skip(3));
    }
}


/// The OSC 52 escape that puts `path` on the terminal's clipboard.
pub open spec fn osc52_text(path: Seq<u8>) -> Seq<char> {
    seq!['\x1b', ']', '5', '2', ';', 'c', ';'] + b64(path) + seq!['\x07']
}

/// OSC 52 clipboard escape for `path`, written by `y`.
pub fn osc52(path: &str) -> (s: String)
    ensures
        s@ == osc52_text(path.spec_bytes()),
{
    let payload = base64(path.as_bytes());
    let mut out: Vec<char> = Vec::new();
    out.push('\x1b');
    out.push(']');
    out.push('5');
    out.push('2');
    out.push(';');
    out.push('c');
    out.push(';');
    let p = chars_of(payload.as_str());
    append_chars(&mut out, &p);
    out.push('\x07');
    proof {
        assert(out@ =~= osc52_text(path.spec_bytes()));
    }
    string_of(out.as_slice())
}


/// Terminal programs known to show OSC 8 hyperlinks.
pub open spec fn link_programs() -> Seq<Seq<char>> {
    seq![
        seq!['i', 't', 'e', 'r', 'm', '.', 'a', 'p', 'p'],
        seq!['w', 'e', 'z', 't', 'e', 'r', 'm'],
        seq!['v', 's', 'c', 'o', 'd', 'e'],
        seq!['a', 'p', 'p', 'l', 'e', '_', 't', 'e', 'r', 'm', 'i', 'n', 'a', 'l'],
        seq!['g', 'h', 'o', 's', 't', 't', 'y'],
        seq!['h', 'y', 'p', 'e', 'r'],
        seq!['t', 'a', 'b', 'b', 'y'],
        seq!['w', 'a', 'r', 'p', 't', 'e', 'r', 'm', 'i', 'n', 'a', 'l'],
    ]
}

/// `TERM` values known to show OSC 8 hyperlinks.
pub open spec fn link_terms() -> Seq<Seq<char>> {
    seq![
        seq!['k', 'i', 't', 't', 'y'],
        seq!['w', 'e', 'z', 't', 'e', 'r', 'm'],
        seq!['f', 'o', 'o', 't'],
        seq!['g', 'h', 'o', 's', 't', 't', 'y'],
        seq!['a', 'l', 'a', 'c', 'r', 'i', 't', 't', 'y'],
    ]
}

/// `s` mentions one of `words`.
pub open spec fn mentions_any(s: Seq<char>, words: Seq<Seq<char>>) -> bool {
    exists|i: int| 0 <= i < words.len() && mentions(s, #[trigger] words[i])
}

/// Whether OSC 8 links are worth emitting, from the terminal's own report:
/// `TERM_PROGRAM`, whether `KITTY_WINDOW_ID` and `WT_SESSION` are set,
/// `VTE_VERSION` (0.60 and later) and `TERM`, case aside.
pub open spec fn links_wanted(
    program: Option<Seq<char>>,
    kitty: bool,
    windows_terminal: bool,
    vte: Option<Seq<char>>,
    term: Seq<char>,
) -> bool {
    ||| (program matches Some(p) && mentions_any(lower(p), link_programs()))
    ||| kitty
    ||| windows_terminal
    ||| (vte matches Some(v) && parsed_u32(v) matches Some(n) && n >= 6000)
    ||| mentions_any(lower(term), link_terms())
}

fn words_of(list: &[&str]) -> (v: Vec<Vec<char>>)
    ensures
        v@.len() == list@.len(),
        forall|i: int| 0 <= i < list@.len() ==> (#[trigger] v@[i])@ == list@[i]@,
{
    let mut v: Vec<Vec<char>> = Vec::new();
    let mut i: usize = 0;
    while i < list.len()
        invariant
            i <= list@.len(),
            v@.len() == i,
            forall|j: int| 0 <= j < i ==> (#[trigger] v@[j])@ == list@[j]@,
        decreases list@.len() - i,
    {
        v.push(chars_of(list[i]));
        i = i + 1;
    }
    v
}

fn mentions_one(hay: &Vec<char>, words: &Vec<Vec<char>>) -> (r: bool)
    ensures
        r == exists|i: int| 0 <= i < words@.len() && mentions(hay@, #[trigger] words@[i]@),
{
    let mut i: usize = 0;
    while i < words.len()
        invariant
            i <= words@.len(),
            forall|j: int| 0 <= j < i ==> !mentions(hay@, #[trigger] words@[j]@),
        decreases words@.len() - i,
    {
        if contains_chars(hay, &words[i]) {
            return true;
        }
        i = i + 1;
    }
    false
}

/// Whether to emit OSC 8 hyperlinks, given what the environment says about
/// the terminal.
pub fn hyperlinks_for(
    program: Option<&str>,
    kitty: bool,
    windows_terminal: bool,
    vte: Option<&str>,
    term: &str,
) -> (r: bool)
    ensures
        r == links_wanted(
            match program {
                Some(p) => Some(p@),
                None => None,
            },
            kitty,
            windows_terminal,
            match vte {
                Some(v) => Some(v@),
                None => None,
            },
            term@,
        ),
{
    let programs = words_of(&["iterm.app", "wezterm", "vscode", "apple_terminal", "ghostty", "hyper", "tabby", "warpterminal"]);
    let terms = words_of(&["kitty", "wezterm", "foot", "ghostty", "alacritty"]);
    proof {
        reveal_strlit("iterm.app");
        reveal_strlit("wezterm");
        reveal_strlit("vscode");
        reveal_strlit("apple_terminal");
        reveal_strlit("ghostty");
        reveal_strlit("hyper");
        reveal_strlit("tabby");
        reveal_strlit("warpterminal");
        reveal_strlit("kitty");
        reveal_strlit("foot");
        reveal_strlit("alacritty");
        assert(programs@.len() == link_programs().len());
        assert forall|i: int| 0 <= i < programs@.len() implies (#[trigger] programs@[i])@ == link_programs()[i] by {
        }
        assert forall|i: int| 0 <= i < terms@.len() implies (#[trigger] terms@[i])@ == link_terms()[i] by {
        }
    }
    let by_program = match program {
        Some(p) => {
            let l = lower_chars(p);
            mentions_one(&l, &programs)
        },
        None => false,
    };
    let by_vte = match vte {
        Some(v) => match parse_u32(v) {
            Some(n) => n >= 6000,
            None => false,
        },
        None => false,
    };
    let t = lower_chars(term);
    let by_term = mentions_one(&t, &terms);
    proof {
        if by_program {
            let l = lower(program.unwrap()@);
            let i = choose|i: int| 0 <= i < programs@.len() && mentions(l, #[trigger] programs@[i]@);
            assert(mentions(l, link_programs()[i]));
        }
        if mentions_any(lower(term@), link_terms()) {
            let i = choose|i: int| 0 <= i < link_terms().len() && mentions(lower(term@), #[trigger] link_terms()[i]);
            assert(mentions(lower(term@), terms@[i]@));
        }
        if program is Some && mentions_any(lower(program.unwrap()@), link_programs()) {
            let l = lower(program.unwrap()@);
            let i = choose|i: int| 0 <= i < link_programs().len() && mentions(l, #[trigger] link_programs()[i]);
            assert(mentions(l, programs@[i]@));
        }
        if by_term {
            let i = choose|i: int| 0 <= i < terms@.len() && mentions(lower(term@), #[trigger] terms@[i]@);
            assert(mentions(lower(term@), link_terms()[i]));
        }
    }
    by_program || kitty || windows_terminal || by_vte || by_term
}

/// The full-screen view needs a terminal on stdout that is not `dumb`.
pub fn usable_terminal(is_tty: bool, term: &str) -> (r: bool)
    ensures
        r == (is_tty && term@.len() > 0 && term@ != seq!['d', 'u', 'm', 'b']),
{
    if !is_tty {
        return false;
    }
    let t = chars_of(term);
    let dumb = vec!['d', 'u', 'm', 'b'];
    proof {
        assert(dumb@ =~= seq!['d', 'u', 'm', 'b']);
    }
    t.len() > 0 && !same_chars(&t, &dumb)
}

/// Widest and tallest the help box gets.
pub const HELP_W: u16 = 62;
pub const HELP_H: u16 = 17;

/// Where the help box goes in the area `(x, y, width, height)`: at most
/// `HELP_W` by `HELP_H` cells, one cell short of the area on every side,
/// centred; nothing when that leaves less than 20 by 6 cells.
pub open spec fn help_box_of(x: int, y: int, width: int, height: int) -> Option<(int, int, int, int)> {
    let w = if width - 2 < HELP_W { if width >= 2 { width - 2 } else { 0 } } else { HELP_W as int };
    let h = if height - 2 < HELP_H { if height >= 2 { height - 2 } else { 0 } } else { HELP_H as int };
    if w < 20 || h < 6 {
        None
    } else {
        Some((x + (width - w) / 2, y + (height - h) / 2, w, h))
    }
}

/// The help box in an area (see `help_box_of`), as `(x, y, width, height)`.
pub fn help_box(x: u16, y: u16, width: u16, height: u16) -> (r: Option<(u16, u16, u16, u16)>)
    requires
        x + width <= u16::MAX,
        y + height <= u16::MAX,
    ensures
        match (r, help_box_of(x as int, y as int, width as int, height as int)) {
            (Some((a, b, c, d)), Some((a2, b2, c2, d2))) => a == a2 && b == b2 && c == c2 && d == d2,
            (None, None) => true,
            _ => false,
        },
{
    let room_w: u16 = if width >= 2 { width - 2 } else { 0 };
    let room_h: u16 = if height >= 2 { height - 2 } else { 0 };
    let w: u16 = if room_w < HELP_W { room_w } else { HELP_W };
    let h: u16 = if room_h < HELP_H { room_h } else { HELP_H };
    if w < 20 || h < 6 {
        return None;
    }
    Some((x + (width - w) / 2, y + (height - h) / 2, w, h))
}

/// How the header row of `width` cells is shared: the readout on the right
/// gets its `readout` columns (taken as a `u16`), but always leaves 8 cells;
/// the breadcrumbs get the rest. Returns `(readout columns, crumb columns)`.
pub fn header_split(width: u16, readout: usize) -> (r: (u16, u16))
    ensures
        r.0 == (if (readout as u16) < (if width >= 8 { width - 8 } else { 0 }) {
            readout as u16 as int
        } else {
            if width >= 8 { width - 8 } else { 0 }
        }),
        r.1 == width - r.0,
{
    let cap: u16 = if width >= 8 { width - 8 } else { 0 };
    let want: u16 = #[verifier::truncate] (readout as u16);
    let right: u16 = if want < cap { want } else { cap };
    (right, width - right)
}

/// A rectangle of cells: `(x, y, width, height)`.
pub type Area = (u16, u16, u16, u16);

/// How the screen is shared: a header row, the treemap, and (from four rows
/// on) a detail row and a hints row at the bottom.
#[derive(Clone, Copy, Debug)]
pub struct Screen {
    pub header: Area,
    pub map: Area,
    pub detail: Area,
    pub hints: Area,
}

/// The split of the area `(x, y, width, height)`: one header row on top; two
/// footer rows (detail, hints) when the area has at least four rows, none
/// otherwise; the treemap gets what is left between them.
pub open spec fn screen_of(x: u16, y: u16, width: u16, height: u16) -> Screen {
    let footer: int = if height >= 4 { 2 } else { 0 };
    let map_h: int = if height >= 1 + footer { height - 1 - footer } else { 0 };
    let detail_y: int = y + 1 + map_h;
    let detail_h: int = if footer > 0 { 1 } else { 0 };
    Screen {
        header: (x, y, width, 1),
        map: (x, (y + 1) as u16, width, map_h as u16),
        detail: (x, detail_y as u16, width, detail_h as u16),
        hints: (x, (detail_y + detail_h) as u16, width, detail_h as u16),
    }
}

/// Split the screen area (see `screen_of`).
pub fn split_screen(x: u16, y: u16, width: u16, height: u16) -> (r: Screen)
    requires
        y + height < u16::MAX,
    ensures
        r == screen_of(x, y, width, height),
{
    let footer: u16 = if height >= 4 { 2 } else { 0 };
    let map_h: u16 = if height >= 1 + footer { height - 1 - footer } else { 0 };
    let detail_y: u16 = y + 1 + map_h;
    let detail_h: u16 = if footer > 0 { 1 } else { 0 };
    Screen {
        header: (x, y, width, 1),
        map: (x, y + 1, width, map_h),
        detail: (x, detail_y, width, detail_h),
        hints: (x, detail_y + detail_h, width, detail_h),
    }
}

/// Whether the treemap is laid out again before a frame is drawn: when
/// asked to, when the treemap's area changed, or when the scan has seen new
/// entries and it is either finished or not frozen and the last layout is
/// old enough (`settled`).
pub fn needs_rebuild(
    dirty: bool,
    area_changed: bool,
    entries: u64,
    last_entries: u64,
    done: bool,
    frozen: bool,
    settled: bool,
) -> (r: bool)
    ensures
        r == (dirty || area_changed || (entries != last_entries && (done || (!frozen && settled)))),
{
    let changed = entries != last_entries;
    let stale = changed && (done || (!frozen && settled));
    dirty || stale || area_changed
}

} // verus!
