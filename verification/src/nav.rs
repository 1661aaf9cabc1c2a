//! Navigation in the interactive view: what a key does, which region an
//! arrow key moves to, and zooming in and out of directories.
use vstd::prelude::*;
use crate::arena::{Arena, NodeId};
use crate::labels::{region_sizes, Bounds, Region};

verus! {

#[derive(Clone, Copy, Debug, PartialEq, Eq, Structural)]
pub enum Dir {
    Up,
    Down,
    Left,
    Right,
}

/// A key press, as far as the view cares.
#[derive(Clone, Copy, Debug, PartialEq, Eq, Structural)]
pub enum Key {
    Char(char),
    Esc,
    Backspace,
    Enter,
    Up,
    Down,
    Left,
    Right,
    Other,
}

/// What the view does in answer to a key.
#[derive(Clone, Copy, Debug, PartialEq, Eq, Structural)]
pub enum Action {
    Quit,
    ShowHelp,
    CloseHelp,
    GoUp,
    Descend,
    Move(Dir),
    Shallower,
    Deeper,
    ToggleFreeze,
    Yank,
    Rescan,
    Nothing,
}

/// The key bindings; while the help overlay is open only `q` and the keys
/// that close it do anything.
pub open spec fn binding(help: bool, key: Key, ctrl: bool) -> Action {
    if help {
        match key {
            Key::Char('q') => Action::Quit,
            Key::Esc | Key::Char('?') | Key::Enter => Action::CloseHelp,
            _ => Action::Nothing,
        }
    } else {
        match key {
            Key::Char('q') => Action::Quit,
            Key::Char('c') if ctrl => Action::Quit,
            Key::Char('?') => Action::ShowHelp,
            Key::Esc | Key::Backspace | Key::Char('u') => Action::GoUp,
            Key::Enter => Action::Descend,
            Key::Up | Key::Char('k') => Action::Move(Dir::Up),
            Key::Down | Key::Char('j') => Action::Move(Dir::Down),
            Key::Left | Key::Char('h') => Action::Move(Dir::Left),
            Key::Right | Key::Char('l') => Action::Move(Dir::Right),
            Key::Char('[') => Action::Shallower,
            Key::Char(']') => Action::Deeper,
            Key::Char(' ') => Action::ToggleFreeze,
            Key::Char('y') => Action::Yank,
            Key::Char('r') => Action::Rescan,
            _ => Action::Nothing,
        }
    }
}

/// What a key does.
pub fn key_action(help: bool, key: Key, ctrl: bool) -> (a: Action)
    ensures
        a == binding(help, key, ctrl),
{
    if help {
        match key {
            Key::Char('q') => Action::Quit,
            Key::Esc | Key::Char('?') | Key::Enter => Action::CloseHelp,
            _ => Action::Nothing,
        }
    } else {
        match key {
            Key::Char('q') => Action::Quit,
            Key::Char('c') if ctrl => Action::Quit,
            Key::Char('?') => Action::ShowHelp,
            Key::Esc | Key::Backspace | Key::Char('u') => Action::GoUp,
            Key::Enter => Action::Descend,
            Key::Up | Key::Char('k') => Action::Move(Dir::Up),
            Key::Down | Key::Char('j') => Action::Move(Dir::Down),
            Key::Left | Key::Char('h') => Action::Move(Dir::Left),
            Key::Right | Key::Char('l') => Action::Move(Dir::Right),
            Key::Char('[') => Action::Shallower,
            Key::Char(']') => Action::Deeper,
            Key::Char(' ') => Action::ToggleFreeze,
            Key::Char('y') => Action::Yank,
            Key::Char('r') => Action::Rescan,
            _ => Action::Nothing,
        }
    }
}

/// Deepest nesting the treemap draws.
pub const MAX_DEPTH: u16 = 12;

/// `[` and `]`: one level less (never below 1) or one more, up to 12; a
/// depth already at or above 12 (as `--depth` may give) stays as it is.
pub fn step_depth(depth: u16, deeper: bool) -> (d: u16)
    ensures
        deeper ==> d == (if depth < MAX_DEPTH { depth + 1 } else { depth as int }),
        !deeper ==> d == (if depth > 1 { depth - 1 } else { 1 }),
{
    if deeper {
        if depth < MAX_DEPTH { depth + 1 } else { depth }
    } else {
        if depth > 1 { depth - 1 } else { 1 }
    }
}

/// Twice the centre of a cell rectangle, so that centres are whole numbers.
pub open spec fn center2(b: Bounds) -> (int, int) {
    (b.0 + b.2, b.1 + b.3)
}

/// How far region `b` lies from `from` in direction `dir`, and how far off
/// to the side, both in half cells.
pub open spec fn offsets(from: Bounds, b: Bounds, dir: Dir) -> (int, int) {
    let dx = center2(b).0 - center2(from).0;
    let dy = center2(b).1 - center2(from).1;
    let adx = if dx < 0 { -dx } else { dx };
    let ady = if dy < 0 { -dy } else { dy };
    match dir {
        Dir::Left => (-dx, ady),
        Dir::Right => (dx, ady),
        Dir::Up => (-dy, adx),
        Dir::Down => (dy, adx),
    }
}

/// Region `i` lies more than half a cell away in direction `dir`.
pub open spec fn ahead(from: Bounds, b: Bounds, dir: Dir) -> bool {
    offsets(from, b, dir).0 > 1
}

/// Distance score, in quarter cells: the way ahead plus two and a half times
/// the way off to the side.
pub open spec fn score(from: Bounds, b: Bounds, dir: Dir) -> int {
    2 * offsets(from, b, dir).0 + 5 * offsets(from, b, dir).1
}

/// The best region among the first `k`, other than `cur`, that lies ahead:
/// lowest score, the first one on ties; -1 when none does.
pub open spec fn best_among(bounds: Seq<Bounds>, cur: int, dir: Dir, k: int) -> int
    decreases k,
{
    if k <= 0 {
        -1
    } else {
        let b = best_among(bounds, cur, dir, k - 1);
        let i = k - 1;
        if i == cur || !ahead(bounds[cur], bounds[i], dir) {
            b
        } else if b == -1 || score(bounds[cur], bounds[i], dir) < score(bounds[cur], bounds[b], dir) {
            i
        } else {
            b
        }
    }
}

proof fn lemma_best_among(bounds: Seq<Bounds>, cur: int, dir: Dir, k: int)
    requires
        0 <= k <= bounds.len(),
    ensures
        ({
            let b = best_among(bounds, cur, dir, k);
            &&& -1 <= b < k
            &&& b >= 0 ==> b != cur && ahead(bounds[cur], bounds[b], dir)
            &&& forall|j: int|
                0 <= j < k && j != cur && ahead(bounds[cur], bounds[j], dir) ==> b >= 0 && score(
                    bounds[cur],
                    bounds[b],
                    dir,
                ) <= score(bounds[cur], #[trigger] bounds[j], dir)
        }),
    decreases k,
{
    if k > 0 {
        lemma_best_among(bounds, cur, dir, k - 1);
    }
}

/// Where an arrow key moves the selection: the closest region whose centre
/// lies ahead, counting sideways distance two and a half times; `None` when
/// nothing lies that way.
pub fn next_region(bounds: &[Bounds], selected: Option<usize>, dir: Dir) -> (r: Option<usize>)
    ensures
        bounds@.len() == 0 ==> r is None,
        bounds@.len() > 0 ==> {
            let cur = match selected {
                Some(s) => if (s as int) < bounds@.len() { s as int } else { bounds@.len() - 1 },
                None => 0,
            };
            let b = best_among(bounds@, cur, dir, bounds@.len() as int);
            match r {
                Some(i) => i as int == b,
                None => b == -1,
            }
        },
{
    let n = bounds.len();
    if n == 0 {
        return None;
    }
    let cur = match selected {
        Some(s) => if s < n { s } else { n - 1 },
        None => 0,
    };
    let from = bounds[cur];
    let fx: i64 = from.0 as i64 + from.2 as i64;
    let fy: i64 = from.1 as i64 + from.3 as i64;
    let mut best: Option<usize> = None;
    let mut best_score: i64 = 0;
    let mut i: usize = 0;
    while i < n
        invariant
            n == bounds@.len(),
            cur < n,
            from == bounds@[cur as int],
            fx == center2(from).0,
            fy == center2(from).1,
            i <= n,
            match best {
                Some(b) => b as int == best_among(bounds@, cur as int, dir, i as int) && best_score == score(
                    from,
                    bounds@[b as int],
                    dir,
                ),
                None => best_among(bounds@, cur as int, dir, i as int) == -1,
            },
        decreases n - i,
    {
        proof {
            lemma_best_among(bounds@, cur as int, dir, i as int);
        }
        if i != cur {
            let b = bounds[i];
            let dx: i64 = (b.0 as i64 + b.2 as i64) - fx;
            let dy: i64 = (b.1 as i64 + b.3 as i64) - fy;
            let adx: i64 = if dx < 0 { -dx } else { dx };
            let ady: i64 = if dy < 0 { -dy } else { dy };
            let (primary, secondary): (i64, i64) = match dir {
                Dir::Left => (-dx, ady),
                Dir::Right => (dx, ady),
                Dir::Up => (-dy, adx),
                Dir::Down => (dy, adx),
            };
            if primary > 1 {
                let s: i64 = 2 * primary + 5 * secondary;
                let better = match best {
                    None => true,
                    Some(_) => s < best_score,
                };
                if better {
                    best = Some(i);
                    best_score = s;
                }
            }
        }
        i = i + 1;
    }
    best
}

/// Law: each arrow key and its vim letter move in their own direction,
/// whatever the control key; while the help overlay is open they do nothing.
pub proof fn law_arrows_move_their_way(ctrl: bool)
    ensures
        binding(false, Key::Left, ctrl) == Action::Move(Dir::Left),
        binding(false, Key::Char('h'), ctrl) == Action::Move(Dir::Left),
        binding(false, Key::Right, ctrl) == Action::Move(Dir::Right),
        binding(false, Key::Char('l'), ctrl) == Action::Move(Dir::Right),
        binding(false, Key::Up, ctrl) == Action::Move(Dir::Up),
        binding(false, Key::Char('k'), ctrl) == Action::Move(Dir::Up),
        binding(false, Key::Down, ctrl) == Action::Move(Dir::Down),
        binding(false, Key::Char('j'), ctrl) == Action::Move(Dir::Down),
        binding(true, Key::Left, ctrl) == Action::Nothing,
        binding(true, Key::Char('h'), ctrl) == Action::Nothing,
        binding(true, Key::Right, ctrl) == Action::Nothing,
        binding(true, Key::Up, ctrl) == Action::Nothing,
        binding(true, Key::Down, ctrl) == Action::Nothing,
{
}

/// Law: the other keys of the view do what the key list says: `q` (and
/// ctrl-c outside help) quits, `?` opens help, esc/backspace/`u` go up,
/// enter descends, `[`/`]` change the depth, space freezes, `y` copies, `r`
/// rescans; in help, esc, `?` and enter close it.
pub proof fn law_other_keys(ctrl: bool)
    ensures
        binding(false, Key::Char('q'), ctrl) == Action::Quit,
        binding(true, Key::Char('q'), ctrl) == Action::Quit,
        binding(false, Key::Char('c'), true) == Action::Quit,
        binding(false, Key::Char('?'), ctrl) == Action::ShowHelp,
        binding(false, Key::Esc, ctrl) == Action::GoUp,
        binding(false, Key::Backspace, ctrl) == Action::GoUp,
        binding(false, Key::Char('u'), ctrl) == Action::GoUp,
        binding(false, Key::Enter, ctrl) == Action::Descend,
        binding(false, Key::Char('['), ctrl) == Action::Shallower,
        binding(false, Key::Char(']'), ctrl) == Action::Deeper,
        binding(false, Key::Char(' '), ctrl) == Action::ToggleFreeze,
        binding(false, Key::Char('y'), ctrl) == Action::Yank,
        binding(false, Key::Char('r'), ctrl) == Action::Rescan,
        binding(true, Key::Esc, ctrl) == Action::CloseHelp,
        binding(true, Key::Char('?'), ctrl) == Action::CloseHelp,
        binding(true, Key::Enter, ctrl) == Action::CloseHelp,
{
}

/// Law: which regions lie ahead. Measured between centres (in half cells), a
/// region lies ahead when its centre is more than half a cell beyond the
/// current one's in the arrow's direction.
pub proof fn law_ahead_is_beyond(from: Bounds, b: Bounds)
    ensures
        ahead(from, b, Dir::Left) <==> (from.0 + from.2) - (b.0 + b.2) > 1,
        ahead(from, b, Dir::Right) <==> (b.0 + b.2) - (from.0 + from.2) > 1,
        ahead(from, b, Dir::Up) <==> (from.1 + from.3) - (b.1 + b.3) > 1,
        ahead(from, b, Dir::Down) <==> (b.1 + b.3) - (from.1 + from.3) > 1,
{
}

/// Law: how regions rank for an arrow key (lower score wins). Of two regions
/// at the same distance ahead, the one less far off to the side ranks
/// better: for left and right, off to the side means up or down; for up and
/// down, left or right. Of two regions equally far off to the side, the
/// nearer one ranks better. Going off to the side costs two and a half times
/// going ahead: five half cells further ahead weigh the same as two half
/// cells further aside.
pub proof fn law_closest_ahead_ranks_first(from: Bounds, b1: Bounds, b2: Bounds)
    ensures
        ({
            let (fx, fy) = (from.0 + from.2, from.1 + from.3);
            let (x1, y1) = (b1.0 + b1.2, b1.1 + b1.3);
            let (x2, y2) = (b2.0 + b2.2, b2.1 + b2.3);
            let side_x1 = if x1 >= fx { x1 - fx } else { fx - x1 };
            let side_x2 = if x2 >= fx { x2 - fx } else { fx - x2 };
            let side_y1 = if y1 >= fy { y1 - fy } else { fy - y1 };
            let side_y2 = if y2 >= fy { y2 - fy } else { fy - y2 };
            &&& (x1 == x2 && side_y1 < side_y2) ==> score(from, b1, Dir::Left) < score(from, b2, Dir::Left)
            &&& (x1 == x2 && side_y1 < side_y2) ==> score(from, b1, Dir::Right) < score(from, b2, Dir::Right)
            &&& (y1 == y2 && side_x1 < side_x2) ==> score(from, b1, Dir::Up) < score(from, b2, Dir::Up)
            &&& (y1 == y2 && side_x1 < side_x2) ==> score(from, b1, Dir::Down) < score(from, b2, Dir::Down)
            &&& (side_y1 == side_y2 && x1 > x2) ==> score(from, b1, Dir::Left) < score(from, b2, Dir::Left)
            &&& (side_y1 == side_y2 && x1 < x2) ==> score(from, b1, Dir::Right) < score(from, b2, Dir::Right)
            &&& (side_x1 == side_x2 && y1 > y2) ==> score(from, b1, Dir::Up) < score(from, b2, Dir::Up)
            &&& (side_x1 == side_x2 && y1 < y2) ==> score(from, b1, Dir::Down) < score(from, b2, Dir::Down)
            &&& (x2 == x1 - 5 && side_y1 == side_y2 + 2) ==> score(from, b1, Dir::Left) == score(from, b2, Dir::Left)
            &&& (x2 == x1 + 5 && side_y1 == side_y2 + 2) ==> score(from, b1, Dir::Right) == score(from, b2, Dir::Right)
            &&& (y2 == y1 - 5 && side_x1 == side_x2 + 2) ==> score(from, b1, Dir::Up) == score(from, b2, Dir::Up)
            &&& (y2 == y1 + 5 && side_x1 == side_x2 + 2) ==> score(from, b1, Dir::Down) == score(from, b2, Dir::Down)
        }),
{
}

/// Law: the arrow key's choice is a region other than the current one that
/// lies ahead and that no other region ahead outranks (the first of equals);
/// when no region lies ahead there is no choice.
pub proof fn law_next_is_best_ahead(bounds: Seq<Bounds>, cur: int, dir: Dir)
    requires
        0 <= cur < bounds.len(),
    ensures
        ({
            let b = best_among(bounds, cur, dir, bounds.len() as int);
            &&& b == -1 <==> forall|j: int| 0 <= j < bounds.len() && j != cur ==> !ahead(bounds[cur], #[trigger] bounds[j], dir)
            &&& b != -1 ==> {
                &&& 0 <= b < bounds.len()
                &&& b != cur
                &&& ahead(bounds[cur], bounds[b], dir)
                &&& forall|j: int|
                    0 <= j < bounds.len() && j != cur && ahead(bounds[cur], #[trigger] bounds[j], dir) ==> score(
                        bounds[cur],
                        bounds[b],
                        dir,
                    ) <= score(bounds[cur], bounds[j], dir)
                &&& forall|j: int|
                    0 <= j < b && j != cur && ahead(bounds[cur], #[trigger] bounds[j], dir) ==> score(
                        bounds[cur],
                        bounds[b],
                        dir,
                    ) < score(bounds[cur], bounds[j], dir)
            }
        }),
{
    lemma_best_among(bounds, cur, dir, bounds.len() as int);
    lemma_best_first(bounds, cur, dir, bounds.len() as int);
}

proof fn lemma_best_first(bounds: Seq<Bounds>, cur: int, dir: Dir, k: int)
    requires
        0 <= k <= bounds.len(),
    ensures
        ({
            let b = best_among(bounds, cur, dir, k);
            b != -1 ==> forall|j: int|
                0 <= j < b && j != cur && ahead(bounds[cur], #[trigger] bounds[j], dir) ==> score(
                    bounds[cur],
                    bounds[b],
                    dir,
                ) < score(bounds[cur], bounds[j], dir)
        }),
    decreases k,
{
    if k > 0 {
        lemma_best_first(bounds, cur, dir, k - 1);
        lemma_best_among(bounds, cur, dir, k - 1);
    }
}

/// Which directory the view shows, and the way back up.
pub struct Nav {
    pub zoom: NodeId,
    pub history: Vec<NodeId>,
}

/// Outcome of a navigation step.
/// What a left click on the treemap does.
#[derive(Clone, Copy, Debug, PartialEq, Eq, Structural)]
pub enum Click {
    /// Outside every region: nothing.
    Nothing,
    /// Select the clicked region.
    Select(usize),
    /// The clicked region was already selected: open it.
    Descend,
}

/// A click on region `hit` (if any) while `selected` is selected: a first
/// click selects, a second click on the same region descends into it.
pub open spec fn click_spec(selected: Option<usize>, hit: Option<usize>) -> Click {
    match hit {
        None => Click::Nothing,
        Some(i) => if selected == Some(i) { Click::Descend } else { Click::Select(i) },
    }
}

/// What clicking region `hit` does while `selected` is selected.
pub fn click(selected: Option<usize>, hit: Option<usize>) -> (c: Click)
    ensures
        c == click_spec(selected, hit),
{
    match hit {
        None => Click::Nothing,
        Some(i) => match selected {
            Some(s) if s == i => Click::Descend,
            _ => Click::Select(i),
        },
    }
}

/// Law: click to select, click again to descend. A click on a region that
/// is not selected selects it, and a second click on it then descends.
pub proof fn law_click_twice_descends(selected: Option<usize>, i: usize)
    requires
        selected != Some(i),
    ensures
        click_spec(selected, Some(i)) == Click::Select(i),
        click_spec(Some(i), Some(i)) == Click::Descend,
{
}

#[derive(Clone, Copy, Debug, PartialEq, Eq, Structural)]
pub enum Step {
    Moved,
    Aggregate,
    NotADirectory,
    AtRoot,
}

/// View and way back after entering `node`.
pub open spec fn after_descend(zoom: NodeId, history: Seq<NodeId>, node: NodeId) -> (NodeId, Seq<NodeId>) {
    (node, history.push(zoom))
}

/// View and way back after going up from `zoom`, whose parent is `parent`.
pub open spec fn after_up(zoom: NodeId, history: Seq<NodeId>, parent: Option<NodeId>) -> (NodeId, Seq<NodeId>) {
    if history.len() > 0 {
        (history.last(), history.drop_last())
    } else {
        match parent {
            Some(p) => (p, history),
            None => (zoom, history),
        }
    }
}

impl Nav {
    /// At the scan root, with no way back.
    pub fn new() -> (n: Self)
        ensures
            n.zoom == 0,
            n.history@.len() == 0,
    {
        Nav { zoom: 0, history: Vec::new() }
    }

    /// Enter the selected region's node: only a directory can be entered,
    /// and not the aggregate of small entries. The view's node is remembered.
    pub fn descend(&mut self, arena: &Arena, node: NodeId, is_rest: bool) -> (s: Step)
        requires
            (node as int) < arena.nodes@.len(),
        ensures
            s == (if is_rest {
                Step::Aggregate
            } else if !arena.nodes@[node as int].is_dir {
                Step::NotADirectory
            } else {
                Step::Moved
            }),
            s == Step::Moved ==> (final(self).zoom, final(self).history@) == after_descend(
                old(self).zoom,
                old(self).history@,
                node,
            ),
            s != Step::Moved ==> final(self).zoom == old(self).zoom && final(self).history@ == old(self).history@,
    {
        if is_rest {
            return Step::Aggregate;
        }
        if !arena.nodes[node as usize].is_dir {
            return Step::NotADirectory;
        }
        self.history.push(self.zoom);
        self.zoom = node;
        Step::Moved
    }

    /// Back to where the last descend came from, else to the parent; at the
    /// scan root there is nowhere to go.
    pub fn go_up(&mut self, arena: &Arena) -> (s: Step)
        requires
            (old(self).zoom as int) < arena.nodes@.len(),
        ensures
            (final(self).zoom, final(self).history@) == after_up(
                old(self).zoom,
                old(self).history@,
                arena.nodes@[old(self).zoom as int].parent,
            ),
            s == (if old(self).history@.len() > 0 || arena.nodes@[old(self).zoom as int].parent is Some {
                Step::Moved
            } else {
                Step::AtRoot
            }),
    {
        match self.history.pop() {
            Some(prev) => {
                self.zoom = prev;
                Step::Moved
            },
            None => match arena.nodes[self.zoom as usize].parent {
                Some(p) => {
                    self.zoom = p;
                    Step::Moved
                },
                None => Step::AtRoot,
            },
        }
    }
}

/// Going up right after entering a directory comes back to where the view
/// was, with the same way back.
pub proof fn law_up_undoes_descend(zoom: NodeId, history: Seq<NodeId>, node: NodeId, parent: Option<NodeId>)
    ensures
        ({
            let (z2, h2) = after_descend(zoom, history, node);
            after_up(z2, h2, parent) == (zoom, history)
        }),
{
    assert(history.push(zoom).drop_last() =~= history);
}


/// What identifies a region across rebuilds: its node and whether it is the
/// aggregate of small entries.
pub type RegionKey = (NodeId, bool);

pub open spec fn region_keys(regions: Seq<Region>) -> Seq<RegionKey> {
    Seq::new(regions.len(), |k: int| (regions[k].node, regions[k].is_rest))
}

/// First region carrying `key`, or -1.
pub open spec fn find_key(keys: Seq<RegionKey>, key: RegionKey, k: int) -> int
    decreases keys.len() - k,
{
    if k < 0 || k >= keys.len() {
        -1
    } else if keys[k] == key {
        k
    } else {
        find_key(keys, key, k + 1)
    }
}

/// Last region of the greatest size among the first `k`, or -1.
pub open spec fn last_biggest(sizes: Seq<u64>, k: int) -> int
    decreases k,
{
    if k <= 0 {
        -1
    } else {
        let b = last_biggest(sizes, k - 1);
        if b == -1 || sizes[k - 1] >= sizes[b] { k - 1 } else { b }
    }
}

/// The selection after a rebuild: the region that was selected, if it is
/// still there, else the biggest one (the last of equals).
pub open spec fn reselected(keys: Seq<RegionKey>, sizes: Seq<u64>, wanted: Option<RegionKey>) -> int {
    let found = match wanted {
        Some(w) => find_key(keys, w, 0),
        None => -1,
    };
    if found != -1 { found } else { last_biggest(sizes, sizes.len() as int) }
}

proof fn lemma_find_key(keys: Seq<RegionKey>, key: RegionKey, k: int)
    requires
        0 <= k <= keys.len(),
    ensures
        ({
            let f = find_key(keys, key, k);
            &&& f == -1 <==> forall|j: int| k <= j < keys.len() ==> keys[j] != key
            &&& f != -1 ==> k <= f < keys.len() && keys[f] == key && forall|j: int| k <= j < f ==> keys[j] != key
        }),
    decreases keys.len() - k,
{
    if k < keys.len() {
        lemma_find_key(keys, key, k + 1);
    }
}

proof fn lemma_last_biggest(sizes: Seq<u64>, k: int)
    requires
        0 <= k <= sizes.len(),
    ensures
        ({
            let b = last_biggest(sizes, k);
            &&& k == 0 <==> b == -1
            &&& k > 0 ==> {
                &&& 0 <= b < k
                &&& forall|j: int| 0 <= j < k ==> sizes[j] <= sizes[b]
                &&& forall|j: int| b < j < k ==> sizes[j] < sizes[b]
            }
        }),
    decreases k,
{
    if k > 0 {
        lemma_last_biggest(sizes, k - 1);
    }
}

/// The region is the one `wanted` names: same node, same kind.
pub open spec fn carries(r: Region, wanted: Option<RegionKey>) -> bool {
    match wanted {
        Some(w) => r.node == w.0 && r.is_rest == w.1,
        None => false,
    }
}

/// Law: after a rebuild the selection stays on the region that was selected
/// (the first region with its node and kind) when it is still there;
/// otherwise it falls back to a biggest region, the last of equally big
/// ones; with no regions there is no selection.
pub proof fn law_reselect_keeps_or_biggest(regions: Seq<Region>, wanted: Option<RegionKey>)
    ensures
        ({
            let r = reselected(region_keys(regions), region_sizes(regions), wanted);
            let n = regions.len();
            let present = exists|j: int| 0 <= j < n && #[trigger] carries(regions[j], wanted);
            &&& n == 0 ==> r == -1
            &&& n > 0 ==> 0 <= r < n
            &&& present ==> 0 <= r < n && carries(regions[r], wanted) && forall|j: int|
                0 <= j < r ==> !#[trigger] carries(regions[j], wanted)
            &&& !present && n > 0 ==> {
                &&& forall|j: int| 0 <= j < n ==> #[trigger] regions[j].size <= regions[r].size
                &&& forall|j: int| r < j < n ==> #[trigger] regions[j].size < regions[r].size
            }
        }),
{
    let keys = region_keys(regions);
    let sizes = region_sizes(regions);
    let n = regions.len();
    lemma_last_biggest(sizes, n as int);
    match wanted {
        Some(w) => {
            lemma_find_key(keys, w, 0);
            assert forall|j: int| 0 <= j < n implies (keys[j] == w <==> #[trigger] carries(regions[j], wanted)) by {}
            if exists|j: int| 0 <= j < n && #[trigger] carries(regions[j], wanted) {
                let j = choose|j: int| 0 <= j < n && #[trigger] carries(regions[j], wanted);
                assert(keys[j] == w);
            }
        },
        None => {},
    }
    let r = reselected(keys, sizes, wanted);
    if n > 0 && !(exists|j: int| 0 <= j < n && #[trigger] carries(regions[j], wanted)) {
        if let Some(w) = wanted {
            assert forall|j: int| 0 <= j < n implies keys[j] != w by {
                assert(!carries(regions[j], wanted));
            }
        }
        assert forall|j: int| 0 <= j < n implies #[trigger] regions[j].size <= regions[r].size by {
            assert(sizes[j] == regions[j].size);
            assert(sizes[r] == regions[r].size);
        }
        assert forall|j: int| r < j < n implies #[trigger] regions[j].size < regions[r].size by {
            assert(sizes[j] == regions[j].size);
            assert(sizes[r] == regions[r].size);
        }
    }
}

/// Keep the user's selection across live rebuilds; if it is gone, fall back
/// to the biggest region.
pub fn reselect(regions: &[Region], wanted: Option<RegionKey>) -> (r: Option<usize>)
    ensures
        match r {
            Some(i) => i as int == reselected(region_keys(regions@), region_sizes(regions@), wanted) && i
                < regions@.len(),
            None => reselected(region_keys(regions@), region_sizes(regions@), wanted) == -1,
        },
{
    let ghost keys = region_keys(regions@);
    let ghost sizes = region_sizes(regions@);
    if let Some(w) = wanted {
        let mut i: usize = 0;
        while i < regions.len()
            invariant
                i <= regions@.len(),
                wanted == Some(w),
                keys == region_keys(regions@),
                find_key(keys, w, 0) == find_key(keys, w, i as int),
            decreases regions@.len() - i,
        {
            if regions[i].node == w.0 && regions[i].is_rest == w.1 {
                proof {
                    assert(keys[i as int] == w);
                }
                return Some(i);
            }
            proof {
                assert(keys[i as int] != w);
            }
            i = i + 1;
        }
    }
    let mut best: Option<usize> = None;
    let mut k: usize = 0;
    while k < regions.len()
        invariant
            k <= regions@.len(),
            sizes == region_sizes(regions@),
            match best {
                Some(b) => b as int == last_biggest(sizes, k as int) && b < k,
                None => last_biggest(sizes, k as int) == -1,
            },
        decreases regions@.len() - k,
    {
        let better = match best {
            None => true,
            Some(b) => regions[k].size >= regions[b].size,
        };
        if better {
            best = Some(k);
        }
        k = k + 1;
    }
    best
}

} // verus!
