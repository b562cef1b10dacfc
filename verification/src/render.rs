use vstd::prelude::*;

use crate::app::{AppState, AppStateModel};
use crate::input::{input_length, input_length_ok};
use crate::panels::Panels;
use crate::splits::{Direction, PanelSplitModel, UserSplits};
use crate::text::{join_lines, PanelKind, TextPanelModel};

verus! {

/// Where the cursor goes when it is not shown.
pub const CURSOR_MAX_X: u16 = 32767;

pub const CURSOR_MAX_Y: u16 = 32767;

/// A rectangle of terminal cells.
#[derive(Debug, Clone, Copy, PartialEq, Eq, Structural)]
pub struct Rect {
    pub x: u16,
    pub y: u16,
    pub width: u16,
    pub height: u16,
}

/// The size that the terminal library clips a rectangle of `width` by
/// `height` to when its area does not fit in 16 bits.
pub uninterp spec fn clipped_size(width: u16, height: u16) -> (u16, u16);

/// The size of a rectangle as made by the terminal library.
pub open spec fn rect_size(width: u16, height: u16) -> (u16, u16) {
    if width * height <= u16::MAX {
        (width, height)
    } else {
        clipped_size(width, height)
    }
}

/// `tui::layout::Rect::new`: keeps the corner, and keeps the size when its
/// area fits in 16 bits; otherwise it clips the size, keeping the aspect
/// ratio (computed in floating point, which is not stated here).
#[verifier::external_body]
fn terminal_rect(x: u16, y: u16, width: u16, height: u16) -> (r: (u16, u16, u16, u16))
    ensures
        r.0 == x,
        r.1 == y,
        width * height <= u16::MAX ==> r.2 == width && r.3 == height,
        width * height > u16::MAX ==> (r.2, r.3) == clipped_size(width, height),
{
    let r = tui::layout::Rect::new(x, y, width, height);
    (r.x, r.y, r.width, r.height)
}

impl Rect {
    /// The rectangle at (`x`, `y`), of `width` by `height` cells, clipped as
    /// the terminal library clips it.
    pub fn new(x: u16, y: u16, width: u16, height: u16) -> (r: Self)
        ensures
            r.x == x,
            r.y == y,
            (r.width, r.height) == rect_size(width, height),
    {
        let (x, y, width, height) = terminal_rect(x, y, width, height);
        Rect { x, y, width, height }
    }
}

/// Whether a shape holds a point.
pub trait HasPoint {
    fn has_point(&self, x: u16, y: u16) -> bool;
}

impl HasPoint for Rect {
    fn has_point(&self, x: u16, y: u16) -> (r: bool)
        ensures
            r == (self.x <= x < self.x + self.width && self.y <= y < self.y + self.height),
    {
        let right: u32 = self.x as u32 + self.width as u32;
        let bottom: u32 = self.y as u32 + self.height as u32;
        x >= self.x && (x as u32) < right && y >= self.y && (y as u32) < bottom
    }
}


/// The sum of some lengths.
pub open spec fn length_sum(s: Seq<u16>) -> int
    decreases s.len(),
{
    if s.len() == 0 {
        0
    } else {
        length_sum(s.drop_last()) + s.last()
    }
}

/// How many of some lengths are fixed (not zero).
pub open spec fn fixed_count(s: Seq<u16>) -> int
    decreases s.len(),
{
    if s.len() == 0 {
        0
    } else {
        fixed_count(s.drop_last()) + if s.last() != 0 { 1int } else { 0 }
    }
}

/// What is left for children without a fixed length.
pub open spec fn flexible_space(fixed: Seq<u16>, flex: u16) -> int {
    flex - length_sum(fixed)
}

/// The share of each child without a fixed length: what is left divided
/// among them (their count taken modulo 2^16), all of it when there are none.
pub open spec fn part_size(fixed: Seq<u16>, flex: u16) -> int {
    let dynamic = fixed.len() - fixed_count(fixed);
    if dynamic == 0 {
        flexible_space(fixed, flex)
    } else {
        flexible_space(fixed, flex) / (dynamic % 65536)
    }
}

/// The length given to a child that asks for `f` (zero: no fixed length).
pub open spec fn given_length(f: u16, part: int) -> int {
    if f == 0 {
        part
    } else {
        f as int
    }
}

/// The lengths given to the first children.
pub open spec fn given_lengths(fixed: Seq<u16>, part: int) -> Seq<int> {
    fixed.map_values(|f: u16| given_length(f, part))
}

pub open spec fn int_sum(s: Seq<int>) -> int
    decreases s.len(),
{
    if s.len() == 0 {
        0
    } else {
        int_sum(s.drop_last()) + s.last()
    }
}

/// The lengths of the children of a split along its flexible dimension,
/// `flex` long, when the children ask for `fixed` (zero: no fixed length):
/// each child but the last gets what it asks for, or else an equal part of
/// what the fixed lengths leave; the last gets what remains after the
/// others have taken theirs.
pub open spec fn split_lengths_spec(fixed: Seq<u16>, flex: u16) -> Seq<int> {
    if fixed.len() == 0 {
        Seq::empty()
    } else {
        let part = part_size(fixed, flex);
        let firsts = given_lengths(fixed.drop_last(), part);
        firsts.push(flexible_space(fixed, flex) - int_sum(firsts))
    }
}

/// The inputs on which the lengths are computed without overflow, underflow
/// or a division by zero.
pub open spec fn split_lengths_ok(fixed: Seq<u16>, flex: u16) -> bool {
    fixed.len() > 0 ==> {
        let dynamic = fixed.len() - fixed_count(fixed);
        &&& length_sum(fixed) <= flex
        &&& dynamic == 0 || dynamic % 65536 != 0
        &&& int_sum(given_lengths(fixed.drop_last(), part_size(fixed, flex))) <= flexible_space(fixed, flex)
    }
}

proof fn lemma_sums_grow(s: Seq<u16>, i: int)
    requires
        0 <= i <= s.len(),
    ensures
        length_sum(s.take(i)) <= length_sum(s),
        fixed_count(s.take(i)) <= fixed_count(s),
        length_sum(s) >= 0,
        0 <= fixed_count(s) <= s.len(),
    decreases s.len(),
{
    if s.len() > 0 {
        if i == s.len() {
            assert(s.take(i) =~= s);
            lemma_sums_grow(s.drop_last(), 0);
        } else {
            assert(s.take(i) =~= s.drop_last().take(i));
            lemma_sums_grow(s.drop_last(), i);
        }
    } else {
        assert(s.take(i) =~= s);
    }
}

proof fn lemma_int_sum_prefix(s: Seq<int>, i: int)
    requires
        0 <= i <= s.len(),
        forall|k: int| 0 <= k < s.len() ==> s[k] >= 0,
    ensures
        0 <= int_sum(s.take(i)) <= int_sum(s),
    decreases s.len(),
{
    if s.len() > 0 {
        if i == s.len() {
            assert(s.take(i) =~= s);
            lemma_int_sum_prefix(s.drop_last(), 0);
            lemma_int_sum_prefix(s.drop_last(), s.len() - 1);
            assert(s.drop_last().take(s.len() - 1) =~= s.drop_last());
        } else {
            assert(s.take(i) =~= s.drop_last().take(i));
            lemma_int_sum_prefix(s.drop_last(), i);
        }
    } else {
        assert(s.take(i) =~= s);
    }
}

/// The lengths of the children of a split; see `split_lengths_spec`.
pub fn split_lengths(fixed: &Vec<u16>, flex_length: u16) -> (r: Vec<u16>)
    requires
        split_lengths_ok(fixed@, flex_length),
    ensures
        r@.map_values(|l: u16| l as int) == split_lengths_spec(fixed@, flex_length),
{
    let mut r: Vec<u16> = Vec::new();
    if fixed.len() == 0 {
        assert(r@.map_values(|l: u16| l as int) =~= split_lengths_spec(fixed@, flex_length));
        return r;
    }
    let n = fixed.len();
    let mut count: usize = 0;
    let mut total: u16 = 0;
    let mut i: usize = 0;
    while i < n
        invariant
            n == fixed@.len(),
            i <= n,
            split_lengths_ok(fixed@, flex_length),
            count == fixed_count(fixed@.take(i as int)),
            total == length_sum(fixed@.take(i as int)),
        decreases n - i,
    {
        proof {
            assert(fixed@.take(i + 1).drop_last() =~= fixed@.take(i as int));
            lemma_sums_grow(fixed@, i + 1);
            lemma_sums_grow(fixed@.take(i + 1), i as int);
        }
        if fixed[i] != 0 {
            count = count + 1;
        }
        total = total + fixed[i];
        i = i + 1;
    }
    proof {
        assert(fixed@.take(n as int) =~= fixed@);
        lemma_sums_grow(fixed@, n as int);
    }
    let dynamic_count = n - count;
    let mut remaining: u16 = flex_length - total;
    let part: u16 = if dynamic_count == 0 {
        remaining
    } else {
        remaining / ((dynamic_count % 65536) as u16)
    };
    let ghost firsts = given_lengths(fixed@.drop_last(), part as int);
    let mut j: usize = 0;
    while j < n - 1
        invariant
            n == fixed@.len(),
            n >= 1,
            j <= n - 1,
            split_lengths_ok(fixed@, flex_length),
            part == part_size(fixed@, flex_length),
            firsts == given_lengths(fixed@.drop_last(), part as int),
            remaining == flexible_space(fixed@, flex_length) - int_sum(firsts.take(j as int)),
            r@.map_values(|l: u16| l as int) == firsts.take(j as int),
        decreases n - 1 - j,
    {
        let l: u16 = if fixed[j] == 0 {
            part
        } else {
            fixed[j]
        };
        proof {
            assert(firsts[j as int] == l);
            assert(firsts.take(j + 1).drop_last() =~= firsts.take(j as int));
            assert forall|k: int| 0 <= k < firsts.len() implies firsts[k] >= 0 by {}
            lemma_int_sum_prefix(firsts, j + 1);
        }
        remaining = remaining - l;
        r.push(l);
        proof {
            assert(r@.map_values(|l: u16| l as int) =~= firsts.take(j + 1));
        }
        j = j + 1;
    }
    r.push(remaining);
    proof {
        assert(firsts.take((n - 1) as int) =~= firsts);
        assert(r@.map_values(|l: u16| l as int) =~= split_lengths_spec(fixed@, flex_length));
    }
    r
}

/// Whether the lengths of a split's children can be computed; see
/// `split_lengths_ok`.
pub fn split_lengths_allowed(fixed: &Vec<u16>, flex_length: u16) -> (r: bool)
    ensures
        r == split_lengths_ok(fixed@, flex_length),
{
    let n = fixed.len();
    if n == 0 {
        return true;
    }
    let mut count: usize = 0;
    let mut total: u64 = 0;
    let mut i: usize = 0;
    while i < n
        invariant
            n == fixed@.len(),
            n > 0,
            i <= n,
            count == fixed_count(fixed@.take(i as int)),
            total == length_sum(fixed@.take(i as int)),
            total <= flex_length,
        decreases n - i,
    {
        proof {
            assert(fixed@.take(i + 1).drop_last() =~= fixed@.take(i as int));
            lemma_sums_grow(fixed@.take(i + 1), i as int);
        }
        if fixed[i] != 0 {
            count = count + 1;
        }
        total = total + fixed[i] as u64;
        i = i + 1;
        if total > flex_length as u64 {
            proof {
                lemma_sums_grow(fixed@, i as int);
            }
            return false;
        }
    }
    proof {
        assert(fixed@.take(n as int) =~= fixed@);
        lemma_sums_grow(fixed@, n as int);
    }
    let dynamic_count = n - count;
    if dynamic_count != 0 && dynamic_count % 65536 == 0 {
        return false;
    }
    let remaining: u16 = flex_length - total as u16;
    let part: u16 = if dynamic_count == 0 {
        remaining
    } else {
        remaining / ((dynamic_count % 65536) as u16)
    };
    let ghost firsts = given_lengths(fixed@.drop_last(), part as int);
    proof {
        assert(part == part_size(fixed@, flex_length));
        assert forall|k: int| 0 <= k < firsts.len() implies firsts[k] >= 0 by {}
    }
    let mut sum: u64 = 0;
    let mut j: usize = 0;
    while j < n - 1
        invariant
            n == fixed@.len(),
            n >= 1,
            j <= n - 1,
            firsts == given_lengths(fixed@.drop_last(), part as int),
            part == part_size(fixed@, flex_length),
            length_sum(fixed@) <= flex_length,
            forall|k: int| 0 <= k < firsts.len() ==> firsts[k] >= 0,
            remaining == flexible_space(fixed@, flex_length),
            sum == int_sum(firsts.take(j as int)),
            sum <= remaining,
        decreases n - 1 - j,
    {
        let l: u16 = if fixed[j] == 0 {
            part
        } else {
            fixed[j]
        };
        proof {
            assert(firsts[j as int] == l);
            assert(firsts.take(j + 1).drop_last() =~= firsts.take(j as int));
        }
        sum = sum + l as u64;
        j = j + 1;
        if sum > remaining as u64 {
            proof {
                lemma_int_sum_prefix(firsts, j as int);
            }
            return false;
        }
    }
    proof {
        assert(firsts.take((n - 1) as int) =~= firsts);
    }
    true
}

/// Where a rectangle starts along a direction, and how long it is there.
pub open spec fn along(direction: Direction, r: Rect) -> (int, int) {
    match direction {
        Direction::Horizontal => (r.x as int, r.width as int),
        Direction::Vertical => (r.y as int, r.height as int),
    }
}

/// Where a rectangle starts across a direction, and how long it is there.
pub open spec fn across(direction: Direction, r: Rect) -> (int, int) {
    match direction {
        Direction::Horizontal => (r.y as int, r.height as int),
        Direction::Vertical => (r.x as int, r.width as int),
    }
}

/// Whether `parts` tile `area` along `direction` for the given lengths: one
/// part per length, each spanning the whole area across the direction, the
/// first starting where the area starts, each starting where the one before
/// ends, the last ending where the area ends; and each part exactly as long
/// as its length when the lengths add up to the area's length.
pub open spec fn lays_out(direction: Direction, lengths: Seq<u16>, area: Rect, parts: Seq<Rect>) -> bool {
    let (start, extent) = along(direction, area);
    &&& parts.len() == lengths.len()
    &&& forall|i: int| 0 <= i < parts.len() ==> #[trigger] across(direction, parts[i]) == across(direction, area)
    &&& parts.len() > 0 ==> along(direction, parts[0]).0 == start
    &&& forall|i: int| 0 <= i < parts.len() - 1 ==> #[trigger] along(direction, parts[i]).0 + along(direction, parts[i]).1 == along(direction, parts[i + 1]).0
    &&& parts.len() > 0 ==> along(direction, parts.last()).0 + along(direction, parts.last()).1 == start + extent
    &&& length_sum(lengths) == extent ==> forall|i: int| 0 <= i < parts.len() ==> #[trigger] along(direction, parts[i]).1 == lengths[i]
}

/// Whether the far edges of a rectangle are cells of the terminal.
pub open spec fn edges_fit(area: Rect) -> bool {
    area.x + area.width <= u16::MAX && area.y + area.height <= u16::MAX
}

/// `tui::layout::Layout::split` with a length constraint for each part, no
/// margin, and the last part stretched to the area's end (the default).
/// The library hands the required constraints (parts within the area, the
/// first at its start, each where the one before ends, each spanning the
/// area across) and a weak length constraint per part to its constraint
/// solver, then sets the last part's end to the area's end. The constraint
/// system is integral, so the solver's values are whole numbers and the
/// conversion to cells keeps them. Where the lengths do not add up to the
/// area's length, which parts take up the difference depends on the order
/// in which the solver walks its hash maps, and is not stated. The library
/// panics when the area's far edges do not fit in 16 bits (its edges
/// saturate while its solver's do not), hence the `requires`.
#[verifier::external_body]
fn terminal_layout(direction: Direction, lengths: &Vec<u16>, area: Rect) -> (r: Vec<Rect>)
    requires
        edges_fit(area),
    ensures
        lays_out(direction, lengths@, area, r@),
{
    let d = match direction {
        Direction::Horizontal => tui::layout::Direction::Horizontal,
        Direction::Vertical => tui::layout::Direction::Vertical,
    };
    let constraints = lengths.iter().map(|l| tui::layout::Constraint::Length(*l)).collect::<Vec<_>>();
    let area = tui::layout::Rect { x: area.x, y: area.y, width: area.width, height: area.height };
    let chunks = tui::layout::Layout::default().direction(d).constraints(constraints).split(area);
    chunks.iter().map(|c| Rect { x: c.x, y: c.y, width: c.width, height: c.height }).collect()
}


/// Whether a child of a split shows: a split always; a panel when it is in
/// the layout, its contents are in the store, and it is visible and not an
/// empty slot.
pub open spec fn child_shown(a: AppStateModel, store: Seq<TextPanelModel>, c: UserSplits) -> bool {
    match c {
        UserSplits::Split(_) => true,
        UserSplits::Panel(pi) => pi < a.panels.len() && a.panels[pi as int].panel_index < store.len() && store[a.panels[pi as int].panel_index as int].visible
            && store[a.panels[pi as int].panel_index as int].kind != PanelKind::Null,
    }
}

/// The children of a split that show, in order.
pub open spec fn shown_children(a: AppStateModel, store: Seq<TextPanelModel>, cs: Seq<UserSplits>) -> Seq<UserSplits>
    decreases cs.len(),
{
    if cs.len() == 0 {
        Seq::empty()
    } else {
        let rest = shown_children(a, store, cs.drop_last());
        if child_shown(a, store, cs.last()) {
            rest.push(cs.last())
        } else {
            rest
        }
    }
}

/// Whether the application waits for input with completions.
pub open spec fn has_completer(a: AppStateModel) -> bool {
    a.input_request matches Some(req) && req.completer is Some
}

/// The length that a shown child asks for: an input panel asks for its
/// rows; everything else asks for none.
pub open spec fn child_fixed(a: AppStateModel, store: Seq<TextPanelModel>, c: UserSplits, fixed_length: u16) -> u16 {
    match c {
        UserSplits::Split(_) => 0,
        UserSplits::Panel(pi) => {
            let p = store[a.panels[pi as int].panel_index as int];
            if p.kind == PanelKind::Input {
                input_length(join_lines(p.lines).len(), fixed_length, has_completer(a)) as u16
            } else {
                0
            }
        },
    }
}

/// Whether a shown child can say what length it asks for.
pub open spec fn child_length_ok(a: AppStateModel, store: Seq<TextPanelModel>, c: UserSplits, fixed_length: u16) -> bool {
    c matches UserSplits::Panel(pi) ==> {
        let p = store[a.panels[pi as int].panel_index as int];
        p.kind == PanelKind::Input ==> input_length_ok(join_lines(p.lines).len(), fixed_length)
    }
}

/// The dimension along a split, and the one across it.
pub open spec fn split_dims(direction: Direction, chunk: Rect) -> (u16, u16) {
    match direction {
        Direction::Horizontal => (chunk.width, chunk.height),
        Direction::Vertical => (chunk.height, chunk.width),
    }
}

/// The lengths that the shown children of a split ask for.
pub open spec fn asked_lengths(a: AppStateModel, store: Seq<TextPanelModel>, s: PanelSplitModel, chunk: Rect) -> Seq<u16> {
    shown_children(a, store, s.panels).map_values(|c: UserSplits| child_fixed(a, store, c, split_dims(s.direction, chunk).1))
}

/// The lengths given to the shown children of a split.
pub open spec fn given_split_lengths(a: AppStateModel, store: Seq<TextPanelModel>, s: PanelSplitModel, chunk: Rect) -> Seq<u16> {
    split_lengths_spec(asked_lengths(a, store, s, chunk), split_dims(s.direction, chunk).0).map_values(|l: int| l as u16)
}

/// The inputs on which a split can be laid out: the chunk's far edges are
/// cells, each shown input panel can count its rows, and the lengths of the
/// children can be computed.
pub open spec fn layout_ok(a: AppStateModel, store: Seq<TextPanelModel>, split: usize, chunk: Rect) -> bool {
    split < a.splits.len() ==> {
        let s = a.splits[split as int];
        &&& edges_fit(chunk)
        &&& forall|i: int| 0 <= i < shown_children(a, store, s.panels).len() ==> #[trigger] child_length_ok(a, store, shown_children(a, store, s.panels)[i], split_dims(s.direction, chunk).1)
        &&& split_lengths_ok(asked_lengths(a, store, s, chunk), split_dims(s.direction, chunk).0)
    }
}

proof fn lemma_shown_len(a: AppStateModel, store: Seq<TextPanelModel>, cs: Seq<UserSplits>)
    ensures
        shown_children(a, store, cs).len() <= cs.len(),
        forall|i: int| 0 <= i < shown_children(a, store, cs).len() ==> #[trigger] child_shown(a, store, shown_children(a, store, cs)[i]),
    decreases cs.len(),
{
    if cs.len() > 0 {
        lemma_shown_len(a, store, cs.drop_last());
    }
}

proof fn lemma_shown_prefix(a: AppStateModel, store: Seq<TextPanelModel>, cs: Seq<UserSplits>, k: int)
    requires
        0 <= k <= cs.len(),
    ensures
        shown_children(a, store, cs.take(k)).is_prefix_of(shown_children(a, store, cs)),
    decreases cs.len() - k,
{
    if k == cs.len() {
        assert(cs.take(k) =~= cs);
    } else {
        lemma_shown_prefix(a, store, cs, k + 1);
        assert(cs.take(k + 1).drop_last() =~= cs.take(k));
    }
}

/// Whether the split `split` can be laid out in `chunk`; see `layout_ok`.
pub fn layout_allowed(app: &AppState, panels: &Panels, split: usize, chunk: Rect) -> (r: bool)
    ensures
        r == layout_ok(app@, panels@, split, chunk),
{
    let top = match app.get_split(split) {
        None => return true,
        Some(s) => s,
    };
    let ghost sm = app@.splits[split as int];
    if chunk.x as u32 + chunk.width as u32 > 65535 || chunk.y as u32 + chunk.height as u32 > 65535 {
        return false;
    }
    let direction = top.direction;
    let (flex_length, fixed_length) = match direction {
        Direction::Horizontal => (chunk.width, chunk.height),
        Direction::Vertical => (chunk.height, chunk.width),
    };
    let mut shown: Vec<UserSplits> = Vec::new();
    let mut fixed: Vec<u16> = Vec::new();
    let mut k: usize = 0;
    proof {
        lemma_shown_len(app@, panels@, sm.panels);
    }
    while k < top.panels.len()
        invariant
            top@ == sm,
            sm == app@.splits[split as int],
            split < app@.splits.len(),
            (flex_length, fixed_length) == split_dims(direction, chunk),
            direction == sm.direction,
            k <= sm.panels.len(),
            shown@ == shown_children(app@, panels@, sm.panels.take(k as int)),
            fixed@ == shown@.map_values(|c: UserSplits| child_fixed(app@, panels@, c, fixed_length)),
            forall|i: int| 0 <= i < shown@.len() ==> #[trigger] child_length_ok(app@, panels@, shown@[i], fixed_length),
            shown_children(app@, panels@, sm.panels).len() <= sm.panels.len(),
        decreases sm.panels.len() - k,
    {
        let child = top.panels[k];
        proof {
            assert(sm.panels.take(k + 1).drop_last() =~= sm.panels.take(k as int));
            assert(sm.panels.take(k + 1).last() == child);
        }
        let ghost before = shown@;
        match child {
            UserSplits::Split(_) => {
                shown.push(child);
                fixed.push(0);
            },
            UserSplits::Panel(pi) => match app.get_panel(pi) {
                Some(lp) => match panels.get(lp.panel_index()) {
                    Some(panel) => {
                        if panel.visible() && panel.kind() != PanelKind::Null {
                            proof {
                                assert(child_shown(app@, panels@, child));
                                assert(shown_children(app@, panels@, sm.panels.take(k + 1)) == before.push(child));
                                lemma_shown_prefix(app@, panels@, sm.panels, k + 1);
                                let all = shown_children(app@, panels@, sm.panels);
                                let pre = before.push(child);
                                assert(pre =~= all.subrange(0, pre.len() as int));
                                assert(pre[before.len() as int] == all.subrange(0, pre.len() as int)[before.len() as int]);
                                assert(all[before.len() as int] == child);
                            }
                            if !panel.length_allowed(fixed_length) {
                                proof {
                                    let all = shown_children(app@, panels@, sm.panels);
                                    assert(!child_length_ok(app@, panels@, child, fixed_length));
                                    assert(!child_length_ok(app@, panels@, all[before.len() as int], fixed_length));
                                    assert(before.len() < all.len());
                                }
                                return false;
                            }
                            shown.push(child);
                            let l = panel.get_length(fixed_length, flex_length, direction, app);
                            fixed.push(l);
                        }
                    },
                    None => {},
                },
                None => {},
            },
        }
        proof {
            assert(fixed@ =~= shown@.map_values(|c: UserSplits| child_fixed(app@, panels@, c, fixed_length)));
        }
        k = k + 1;
    }
    proof {
        assert(sm.panels.take(sm.panels.len() as int) =~= sm.panels);
        assert(fixed@ =~= asked_lengths(app@, panels@, sm, chunk));
    }
    split_lengths_allowed(&fixed, flex_length)
}

/// Lays out the split `split` in `chunk`: the children that show, each with
/// its rectangle. `None` when there is no such split.
pub fn split_layout(app: &AppState, panels: &Panels, split: usize, chunk: Rect) -> (r: Option<Vec<(UserSplits, Rect)>>)
    requires
        layout_ok(app@, panels@, split, chunk),
    ensures
        match r {
            None => split >= app@.splits.len(),
            Some(v) => split < app@.splits.len() && {
                let s = app@.splits[split as int];
                let shown = shown_children(app@, panels@, s.panels);
                &&& v@.len() == shown.len()
                &&& forall|i: int| 0 <= i < v@.len() ==> (#[trigger] v@[i]).0 == shown[i]
                &&& lays_out(s.direction, given_split_lengths(app@, panels@, s, chunk), chunk, v@.map_values(|x: (UserSplits, Rect)| x.1))
            },
        },
{
    let top = match app.get_split(split) {
        None => return None,
        Some(s) => s,
    };
    let ghost sm = app@.splits[split as int];
    let direction = top.direction;
    let (flex_length, fixed_length) = match direction {
        Direction::Horizontal => (chunk.width, chunk.height),
        Direction::Vertical => (chunk.height, chunk.width),
    };
    let mut shown: Vec<UserSplits> = Vec::new();
    let mut fixed: Vec<u16> = Vec::new();
    let mut k: usize = 0;
    proof {
        lemma_shown_len(app@, panels@, sm.panels);
    }
    while k < top.panels.len()
        invariant
            top@ == sm,
            sm == app@.splits[split as int],
            split < app@.splits.len(),
            layout_ok(app@, panels@, split, chunk),
            (flex_length, fixed_length) == split_dims(direction, chunk),
            direction == sm.direction,
            k <= sm.panels.len(),
            shown@ == shown_children(app@, panels@, sm.panels.take(k as int)),
            fixed@ == shown@.map_values(|c: UserSplits| child_fixed(app@, panels@, c, fixed_length)),
            shown_children(app@, panels@, sm.panels).len() <= sm.panels.len(),
            forall|i: int| 0 <= i < shown_children(app@, panels@, sm.panels).len() ==> #[trigger] child_shown(app@, panels@, shown_children(app@, panels@, sm.panels)[i]),
        decreases sm.panels.len() - k,
    {
        let child = top.panels[k];
        proof {
            assert(sm.panels.take(k + 1).drop_last() =~= sm.panels.take(k as int));
            assert(sm.panels.take(k + 1).last() == child);
        }
        let ghost before = shown@;
        match child {
            UserSplits::Split(_) => {
                shown.push(child);
                fixed.push(0);
            },
            UserSplits::Panel(pi) => match app.get_panel(pi) {
                Some(lp) => match panels.get(lp.panel_index()) {
                    Some(panel) => {
                        if panel.visible() && panel.kind() != PanelKind::Null {
                            shown.push(child);
                            proof {
                                assert(child_shown(app@, panels@, child));
                                assert(shown_children(app@, panels@, sm.panels.take(k + 1)) == before.push(child));
                                lemma_shown_prefix(app@, panels@, sm.panels, k + 1);
                                let all = shown_children(app@, panels@, sm.panels);
                                let pre = before.push(child);
                                assert(pre.len() <= all.len());
                                assert(pre =~= all.subrange(0, pre.len() as int));
                                assert(pre[before.len() as int] == all.subrange(0, pre.len() as int)[before.len() as int]);
                                assert(all[before.len() as int] == child);
                                assert(child_length_ok(app@, panels@, all[before.len() as int], fixed_length));
                            }
                            let l = panel.get_length(fixed_length, flex_length, direction, app);
                            fixed.push(l);
                        }
                    },
                    None => {},
                },
                None => {},
            },
        }
        proof {
            assert(fixed@ =~= shown@.map_values(|c: UserSplits| child_fixed(app@, panels@, c, fixed_length)));
        }
        k = k + 1;
    }
    proof {
        assert(sm.panels.take(sm.panels.len() as int) =~= sm.panels);
    }
    let lengths = split_lengths(&fixed, flex_length);
    proof {
        let spec_l = split_lengths_spec(fixed@, flex_length);
        assert forall|i: int| 0 <= i < lengths@.len() implies lengths@[i] == spec_l[i] as u16 by {
            assert(lengths@.map_values(|l: u16| l as int)[i] == spec_l[i]);
        }
        assert(lengths@ =~= given_split_lengths(app@, panels@, sm, chunk));
    }
    let rects = terminal_layout(direction, &lengths, chunk);
    proof {
        assert(rects@.len() == lengths@.len());
    }
    let mut v: Vec<(UserSplits, Rect)> = Vec::new();
    let mut i: usize = 0;
    while i < shown.len()
        invariant
            rects@.len() == lengths@.len(),
            i <= shown@.len(),
            v@.len() == i,
            forall|j: int| 0 <= j < i ==> (#[trigger] v@[j]).0 == shown@[j] && v@[j].1 == rects@[j],
            lengths@.len() == shown@.len(),
        decreases shown@.len() - i,
    {
        v.push((shown[i], rects[i]));
        i = i + 1;
    }
    proof {
        assert(v@.map_values(|x: (UserSplits, Rect)| x.1) =~= rects@);
    }
    Some(v)
}


/// The lengths given to a split's children add up to the space that the
/// fixed lengths leave: the last child takes what the others did not.
pub proof fn lemma_split_lengths_sum(fixed: Seq<u16>, flex: u16)
    requires
        fixed.len() > 0,
    ensures
        int_sum(split_lengths_spec(fixed, flex)) == flexible_space(fixed, flex),
        split_lengths_spec(fixed, flex).len() == fixed.len(),
{
    let part = part_size(fixed, flex);
    let firsts = given_lengths(fixed.drop_last(), part);
    let all = firsts.push(flexible_space(fixed, flex) - int_sum(firsts));
    assert(all.drop_last() =~= firsts);
}

proof fn lemma_all_flexible(fixed: Seq<u16>)
    requires
        forall|i: int| 0 <= i < fixed.len() ==> fixed[i] == 0,
    ensures
        length_sum(fixed) == 0,
        fixed_count(fixed) == 0,
    decreases fixed.len(),
{
    if fixed.len() > 0 {
        lemma_all_flexible(fixed.drop_last());
    }
}

proof fn lemma_sum_as_cells(s: Seq<int>)
    requires
        forall|i: int| 0 <= i < s.len() ==> 0 <= #[trigger] s[i] <= u16::MAX,
    ensures
        length_sum(s.map_values(|l: int| l as u16)) == int_sum(s),
    decreases s.len(),
{
    if s.len() > 0 {
        assert(s.map_values(|l: int| l as u16).drop_last() =~= s.drop_last().map_values(|l: int| l as u16));
        lemma_sum_as_cells(s.drop_last());
    }
}

/// Where no child of a split asks for a fixed length, the lengths given to
/// the children add up to the split's whole length: laid out, each child is
/// exactly as long as its given length.
pub proof fn lemma_flexible_lengths_fill(fixed: Seq<u16>, flex: u16)
    requires
        fixed.len() > 0,
        forall|i: int| 0 <= i < fixed.len() ==> fixed[i] == 0,
        split_lengths_ok(fixed, flex),
    ensures
        length_sum(split_lengths_spec(fixed, flex).map_values(|l: int| l as u16)) == flex,
{
    lemma_all_flexible(fixed);
    lemma_split_lengths_sum(fixed, flex);
    let part = part_size(fixed, flex);
    let firsts = given_lengths(fixed.drop_last(), part);
    let all = split_lengths_spec(fixed, flex);
    assert(0 <= part <= flex);
    assert forall|k: int| 0 <= k < firsts.len() implies 0 <= #[trigger] firsts[k] <= flex by {}
    lemma_int_sum_prefix(firsts, 0);
    assert(firsts.take(0) =~= Seq::<int>::empty());
    assert forall|i: int| 0 <= i < all.len() implies 0 <= #[trigger] all[i] <= u16::MAX by {
        if i < firsts.len() {
            assert(all[i] == firsts[i]);
        }
    }
    lemma_sum_as_cells(all);
}

/// How a split shares its length among its children: a child that asks for
/// a length gets it; the other children but the last get equal shares, the
/// largest whole share of what the asked lengths leave; the last child gets
/// what remains.
pub proof fn lemma_split_shares(fixed: Seq<u16>, flex: u16, i: int)
    requires
        0 <= i < fixed.len() - 1,
        split_lengths_ok(fixed, flex),
    ensures
        ({
            let r = split_lengths_spec(fixed, flex);
            let space = flex - length_sum(fixed);
            let dynamic = fixed.len() - fixed_count(fixed);
            &&& fixed[i] != 0 ==> r[i] == fixed[i]
            &&& fixed[i] == 0 && dynamic < 65536 ==> r[i] * dynamic <= space < (r[i] + 1) * dynamic
            &&& int_sum(r) == space
        }),
{
    lemma_split_lengths_sum(fixed, flex);
    let r = split_lengths_spec(fixed, flex);
    let space = flex - length_sum(fixed);
    let dynamic = fixed.len() - fixed_count(fixed);
    let part = part_size(fixed, flex);
    assert(r[i] == given_length(fixed[i], part));
    if fixed[i] == 0 && dynamic < 65536 {
        lemma_sums_grow(fixed, 0);
        assert(dynamic > 0) by {
            lemma_zero_counted(fixed, i);
        }
        assert(dynamic % 65536 == dynamic);
        assert(space >= 0);
        assert(part == space / dynamic);
        assert(part * dynamic <= space < (part + 1) * dynamic) by (nonlinear_arith)
            requires part == space / dynamic, dynamic > 0, space >= 0;
    }
}

proof fn lemma_zero_counted(fixed: Seq<u16>, i: int)
    requires
        0 <= i < fixed.len(),
        fixed[i] == 0,
    ensures
        fixed_count(fixed) < fixed.len(),
    decreases fixed.len(),
{
    lemma_sums_grow(fixed, 0);
    if i < fixed.len() - 1 {
        lemma_zero_counted(fixed.drop_last(), i);
    } else {
        lemma_sums_grow(fixed.drop_last(), 0);
    }
}

} // verus!
