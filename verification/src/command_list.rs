use vstd::prelude::*;

use crate::app::StateChangeRequest;
use crate::commands::CommandKey;
use crate::keys::{KeyCode, KeyModifiers};
use crate::text::{TextPanel, TextPanelModel};
use crate::text_util::{chars_to_string, copy_string, decimal, number_to_string, push_char, str_chars};

verus! {

/// The number of commands (leaves) of a trie, counting the children of a
/// branch from the `k`th on.
pub open spec fn leaf_count_from<T>(n: CommandKey<T>, k: int) -> nat
    decreases n, (if n is Node && 0 <= k <= n.children().len() { n.children().len() - k } else { 0 }),
{
    match n {
        CommandKey::Leaf(..) => 1,
        CommandKey::Node(_, _, ch, _) => if 0 <= k < ch@.len() {
            leaf_count_from(ch@[k], 0) + leaf_count_from(n, k + 1)
        } else {
            0
        },
    }
}

/// The number of commands (leaves) of a trie.
pub open spec fn leaf_count<T>(n: CommandKey<T>) -> nat {
    leaf_count_from(n, 0)
}

/// Counts the commands of a trie.
pub fn count_commands<T>(root: &CommandKey<T>) -> (r: usize)
    requires
        leaf_count(*root) <= usize::MAX,
    ensures
        r == leaf_count(*root),
    decreases *root,
{
    match root {
        CommandKey::Leaf(..) => 1,
        CommandKey::Node(_, _, children, _) => {
            let mut total: usize = 0;
            let mut i = children.len();
            // counted from the back: `total` holds the leaves of children i..
            while i > 0
                invariant
                    *root is Node,
                    root.children() == children@,
                    i <= children@.len(),
                    total == leaf_count_from(*root, i as int),
                    leaf_count_from(*root, 0) <= usize::MAX,
                decreases i,
            {
                proof {
                    lemma_count_from_grows(*root, 0, (i - 1) as int);
                    assert(decreases_to!(*root => children@[i - 1]));
                }
                let child_count = count_commands(&children[i - 1]);
                total = total + child_count;
                i = i - 1;
            }
            total
        },
    }
}

proof fn lemma_count_from_grows<T>(n: CommandKey<T>, j: int, k: int)
    requires
        0 <= j <= k,
    ensures
        leaf_count_from(n, k) <= leaf_count_from(n, j),
        n is Node && k < n.children().len() ==> leaf_count_from(n.children()[k], 0) + leaf_count_from(n, k + 1)
            <= leaf_count_from(n, j),
    decreases k - j,
{
    if j < k {
        lemma_count_from_grows(n, j + 1, k);
    }
}

/// The name of a set of modifiers: SHIFT, CTRL and ALT, joined by " + ".
pub open spec fn modifiers_name(m: KeyModifiers, concise: bool) -> Seq<char> {
    let alt = m.bits & 4 == 4;
    let ctrl = m.bits & 2 == 2;
    let shift = m.bits & 1 == 1;
    if concise {
        if !alt && !ctrl && !shift {
            ""@
        } else if alt && !ctrl && !shift {
            "A"@
        } else if !alt && ctrl && !shift {
            "C"@
        } else if !alt && !ctrl && shift {
            "S"@
        } else if alt && ctrl && !shift {
            "CA"@
        } else if alt && !ctrl && shift {
            "SA"@
        } else if !alt && ctrl && shift {
            "SC"@
        } else {
            "SCA"@
        }
    } else {
        if !alt && !ctrl && !shift {
            ""@
        } else if alt && !ctrl && !shift {
            "ALT"@
        } else if !alt && ctrl && !shift {
            "CTRL"@
        } else if !alt && !ctrl && shift {
            "SHIFT"@
        } else if alt && ctrl && !shift {
            "CTRL + ALT"@
        } else if alt && !ctrl && shift {
            "SHIFT + ALT"@
        } else if !alt && ctrl && shift {
            "SHIFT + CTRL"@
        } else {
            "SHIFT + CTRL + ALT"@
        }
    }
}

/// The modifiers as words.
pub fn format_modifiers(modifiers: KeyModifiers) -> (r: &'static str)
    ensures
        r@ == modifiers_name(modifiers, false),
{
    let alt = modifiers.contains(KeyModifiers::alt());
    let ctrl = modifiers.contains(KeyModifiers::control());
    let shift = modifiers.contains(KeyModifiers::shift());
    match (alt, ctrl, shift) {
        (false, false, false) => "",
        (true, false, false) => "ALT",
        (false, true, false) => "CTRL",
        (false, false, true) => "SHIFT",
        (true, true, false) => "CTRL + ALT",
        (true, false, true) => "SHIFT + ALT",
        (false, true, true) => "SHIFT + CTRL",
        (true, true, true) => "SHIFT + CTRL + ALT",
    }
}

/// The modifiers as initials.
pub fn format_modifiers_concise(modifiers: KeyModifiers) -> (r: &'static str)
    ensures
        r@ == modifiers_name(modifiers, true),
{
    let alt = modifiers.contains(KeyModifiers::alt());
    let ctrl = modifiers.contains(KeyModifiers::control());
    let shift = modifiers.contains(KeyModifiers::shift());
    match (alt, ctrl, shift) {
        (false, false, false) => "",
        (true, false, false) => "A",
        (false, true, false) => "C",
        (false, false, true) => "S",
        (true, true, false) => "CA",
        (true, false, true) => "SA",
        (false, true, true) => "SC",
        (true, true, true) => "SCA",
    }
}

/// The name of a key: a character as itself, the catch-all key as `*`, a
/// function key as `F(n)`, others by their names.
pub open spec fn code_name(code: KeyCode) -> Seq<char> {
    match code {
        KeyCode::Char(c) => seq![c],
        KeyCode::Null => "*"@,
        KeyCode::F(n) => "F("@ + decimal(n as nat) + ")"@,
        KeyCode::Backspace => "Backspace"@,
        KeyCode::Enter => "Enter"@,
        KeyCode::Left => "Left"@,
        KeyCode::Right => "Right"@,
        KeyCode::Up => "Up"@,
        KeyCode::Down => "Down"@,
        KeyCode::Home => "Home"@,
        KeyCode::End => "End"@,
        KeyCode::PageUp => "PageUp"@,
        KeyCode::PageDown => "PageDown"@,
        KeyCode::Tab => "Tab"@,
        KeyCode::BackTab => "BackTab"@,
        KeyCode::Delete => "Delete"@,
        KeyCode::Insert => "Insert"@,
        KeyCode::Esc => "Esc"@,
        KeyCode::Other => "Other"@,
    }
}

fn append_str(s: &mut String, t: &str)
    ensures
        final(s)@ == old(s)@ + t@,
{
    let cs = crate::text_util::str_chars(t);
    let mut i: usize = 0;
    while i < cs.len()
        invariant
            cs@ == t@,
            i <= cs@.len(),
            s@ == old(s)@ + cs@.take(i as int),
        decreases cs@.len() - i,
    {
        push_char(s, cs[i]);
        assert(cs@.take(i + 1) =~= cs@.take(i as int).push(cs@[i as int]));
        i = i + 1;
    }
    assert(cs@.take(cs@.len() as int) =~= cs@);
}

/// The name of a key; see `code_name`.
pub fn format_code(code: KeyCode) -> (r: String)
    ensures
        r@ == code_name(code),
{
    match code {
        KeyCode::Char(c) => {
            let mut s = String::new();
            push_char(&mut s, c);
            assert(s@ =~= seq![c]);
            s
        },
        KeyCode::Null => "*".to_owned(),
        KeyCode::F(n) => {
            let mut s = "F(".to_owned();
            let digits = number_to_string(n as u64);
            append_str(&mut s, digits.as_str());
            append_str(&mut s, ")");
            s
        },
        KeyCode::Backspace => "Backspace".to_owned(),
        KeyCode::Enter => "Enter".to_owned(),
        KeyCode::Left => "Left".to_owned(),
        KeyCode::Right => "Right".to_owned(),
        KeyCode::Up => "Up".to_owned(),
        KeyCode::Down => "Down".to_owned(),
        KeyCode::Home => "Home".to_owned(),
        KeyCode::End => "End".to_owned(),
        KeyCode::PageUp => "PageUp".to_owned(),
        KeyCode::PageDown => "PageDown".to_owned(),
        KeyCode::Tab => "Tab".to_owned(),
        KeyCode::BackTab => "BackTab".to_owned(),
        KeyCode::Delete => "Delete".to_owned(),
        KeyCode::Insert => "Insert".to_owned(),
        KeyCode::Esc => "Esc".to_owned(),
        KeyCode::Other => "Other".to_owned(),
    }
}

/// Selects the next of `count` listed commands, back to the first past the
/// last; selections count from one, zero selecting none.
pub fn next_command(panel: &mut TextPanel, _code: KeyCode, count: usize) -> (r: (bool, Vec<StateChangeRequest>))
    requires
        old(panel)@.selection < usize::MAX,
    ensures
        final(panel)@ == (TextPanelModel {
            selection: if old(panel)@.selection + 1 > count {
                1
            } else {
                (old(panel)@.selection + 1) as usize
            },
            ..old(panel)@
        }),
        r.0,
        r.1@.len() == 0,
{
    if panel.selection() + 1 > count {
        panel.set_selection(1);
    } else {
        panel.set_selection(panel.selection() + 1);
    }
    (true, Vec::new())
}

/// Selects the previous of `count` listed commands, the last from the first.
pub fn previous_command(panel: &mut TextPanel, _code: KeyCode, count: usize) -> (r: (bool, Vec<StateChangeRequest>))
    ensures
        final(panel)@ == (TextPanelModel {
            selection: if old(panel)@.selection <= 1 {
                count
            } else {
                (old(panel)@.selection - 1) as usize
            },
            ..old(panel)@
        }),
        r.0,
        r.1@.len() == 0,
{
    if panel.selection() <= 1 {
        panel.set_selection(count);
    } else {
        panel.set_selection(panel.selection() - 1);
    }
    (true, Vec::new())
}

/// Selects no command.
pub fn deselect(panel: &mut TextPanel, _code: KeyCode) -> (r: (bool, Vec<StateChangeRequest>))
    ensures
        final(panel)@ == (TextPanelModel { selection: 0, ..old(panel)@ }),
        r.0,
        r.1@.len() == 0,
{
    panel.set_selection(0);
    (true, Vec::new())
}

/// The label of one key: the key's name, after the initials of its
/// modifiers when it has any.
pub open spec fn key_label(code: KeyCode, mods: KeyModifiers) -> Seq<char> {
    if mods.bits == 0 {
        code_name(code)
    } else {
        modifiers_name(mods, true) + " + "@ + code_name(code)
    }
}

/// Keys so far followed by one more: joined by an arrow.
pub open spec fn joined(base: Seq<char>, s: Seq<char>) -> Seq<char> {
    if base.len() == 0 {
        s
    } else {
        base + " -> "@ + s
    }
}

/// A listed command as a value: its name, its description, its keys.
pub struct RowModel {
    pub name: Seq<char>,
    pub description: Seq<char>,
    pub keys: Seq<char>,
}

/// The commands under a node, children in order, each with the keys that
/// lead to it after `base`; the node's own key counts unless it is the top
/// branch of the listing.
pub open spec fn rows_of<T>(n: CommandKey<T>, base: Seq<char>, top: bool) -> Seq<RowModel>
    decreases n, 1nat, 0nat,
{
    match n {
        CommandKey::Leaf(code, mods, d, _) => seq![
            RowModel { name: d.spec_name(), description: d.spec_description(), keys: joined(base, key_label(code, mods)) },
        ],
        CommandKey::Node(code, mods, _, _) => rows_of_children(
            n,
            if top {
                base
            } else {
                joined(base, key_label(code, mods))
            },
            0,
        ),
    }
}

pub open spec fn rows_of_children<T>(n: CommandKey<T>, base: Seq<char>, k: int) -> Seq<RowModel>
    decreases n, 0nat, (if n is Node && 0 <= k <= n.children().len() { n.children().len() - k } else { 0 }) as nat,
{
    match n {
        CommandKey::Node(_, _, ch, _) => if 0 <= k < ch@.len() {
            rows_of(ch@[k], base, false) + rows_of_children(n, base, k + 1)
        } else {
            Seq::empty()
        },
        CommandKey::Leaf(..) => Seq::empty(),
    }
}

/// Whether one name sorts before or with another: character by character.
pub open spec fn name_le(a: Seq<char>, b: Seq<char>) -> bool
    decreases a.len(),
{
    if a.len() == 0 {
        true
    } else if b.len() == 0 {
        false
    } else if a[0] != b[0] {
        a[0] < b[0]
    } else {
        name_le(a.drop_first(), b.drop_first())
    }
}

/// Sorted rows with one more placed after every row whose name sorts with
/// or before its own.
pub open spec fn sorted_insert(s: Seq<RowModel>, x: RowModel) -> Seq<RowModel>
    decreases s.len(),
{
    if s.len() == 0 {
        seq![x]
    } else if name_le(s.last().name, x.name) {
        s.push(x)
    } else {
        sorted_insert(s.drop_last(), x).push(s.last())
    }
}

/// The rows sorted by name, rows of equal names keeping their order.
pub open spec fn sorted_by_name(s: Seq<RowModel>) -> Seq<RowModel>
    decreases s.len(),
{
    if s.len() == 0 {
        Seq::empty()
    } else {
        sorted_insert(sorted_by_name(s.drop_last()), s.last())
    }
}

/// The longest name among some rows.
pub open spec fn name_width(s: Seq<RowModel>) -> nat
    decreases s.len(),
{
    if s.len() == 0 {
        0
    } else if s.last().name.len() > name_width(s.drop_last()) {
        s.last().name.len()
    } else {
        name_width(s.drop_last())
    }
}

/// A name padded with spaces to `width` characters.
pub open spec fn padded(name: Seq<char>, width: nat) -> Seq<char> {
    if name.len() < width {
        name + Seq::new((width - name.len()) as nat, |i: int| ' ')
    } else {
        name
    }
}

/// The listing of the commands under a node: sorted by name, each line the
/// padded name, a bar and the keys.
pub open spec fn listing_lines<T>(n: CommandKey<T>) -> Seq<Seq<Seq<char>>> {
    let rows = sorted_by_name(rows_of(n, Seq::empty(), true));
    rows.map_values(|r: RowModel| seq![padded(r.name, name_width(rows)), " | "@, r.keys])
}

/// Which listed row is selected: selections count from one over all
/// listings, `total_count` rows coming before this one; zero selects none.
pub open spec fn selected_row(selection: usize, total_count: usize, count: nat) -> Option<int> {
    if selection != 0 && total_count <= selection - 1 < total_count + count {
        Some(selection - 1 - total_count)
    } else {
        None
    }
}

/// A listed command.
pub struct CommandRow {
    pub name: String,
    pub description: String,
    pub keys: String,
}

pub open spec fn row_view(r: CommandRow) -> RowModel {
    RowModel { name: r.name@, description: r.description@, keys: r.keys@ }
}

pub open spec fn rows_view(rs: Seq<CommandRow>) -> Seq<RowModel> {
    rs.map_values(|r: CommandRow| row_view(r))
}

fn key_label_exec(code: KeyCode, mods: KeyModifiers) -> (r: Vec<char>)
    ensures
        r@ == key_label(code, mods),
{
    let name = format_code(code);
    if mods.is_empty() {
        str_chars(name.as_str())
    } else {
        let mut s = format_modifiers_concise(mods).to_owned();
        append_str(&mut s, " + ");
        append_str(&mut s, name.as_str());
        str_chars(s.as_str())
    }
}

fn joined_exec(base: &Vec<char>, label: Vec<char>) -> (r: Vec<char>)
    ensures
        r@ == joined(base@, label@),
{
    if base.len() == 0 {
        label
    } else {
        let mut r = base.clone();
        assert(r@ == base@);
        r.push(' ');
        r.push('-');
        r.push('>');
        r.push(' ');
        let mut i: usize = 0;
        let ghost start = r@;
        while i < label.len()
            invariant
                i <= label@.len(),
                r@ == start + label@.take(i as int),
            decreases label@.len() - i,
        {
            r.push(label[i]);
            assert(label@.take(i + 1) =~= label@.take(i as int).push(label@[i as int]));
            i = i + 1;
        }
        proof {
            reveal_strlit(" -> ");
            assert(label@.take(label@.len() as int) =~= label@);
            assert(r@ =~= joined(base@, label@));
        }
        r
    }
}

/// Adds the rows of the commands under `n` to `out`; see `rows_of`.
fn collect_rows<T>(n: &CommandKey<T>, base: &Vec<char>, top: bool, out: &mut Vec<CommandRow>)
    ensures
        rows_view(final(out)@) == rows_view(old(out)@) + rows_of(*n, base@, top),
    decreases *n,
{
    match n {
        CommandKey::Leaf(code, mods, details, _) => {
            let keys = joined_exec(base, key_label_exec(*code, *mods));
            let row = CommandRow {
                name: copy_string(details.name()),
                description: copy_string(details.description()),
                keys: chars_to_string(&keys),
            };
            let ghost before = rows_view(out@);
            out.push(row);
            assert(rows_view(out@) =~= before + seq![row_view(row)]);
        },
        CommandKey::Node(code, mods, children, _) => {
            let next_base = if top {
                base.clone()
            } else {
                joined_exec(base, key_label_exec(*code, *mods))
            };
            assert(next_base@ == if top { base@ } else { joined(base@, key_label(*code, *mods)) });
            let ghost start = rows_view(out@);
            let mut i: usize = 0;
            while i < children.len()
                invariant
                    *n is Node,
                    n.children() == children@,
                    i <= children@.len(),
                    rows_view(out@) + rows_of_children(*n, next_base@, i as int) == start + rows_of_children(*n, next_base@, 0),
                decreases children@.len() - i,
            {
                proof {
                    assert(decreases_to!(*n => children@[i as int]));
                }
                let ghost mid = rows_view(out@);
                collect_rows(&children[i], &next_base, false, out);
                proof {
                    assert(rows_of_children(*n, next_base@, i as int) == rows_of(children@[i as int], next_base@, false)
                        + rows_of_children(*n, next_base@, i + 1));
                    assert(rows_view(out@) + rows_of_children(*n, next_base@, i + 1) =~= mid + rows_of_children(*n, next_base@, i as int));
                }
                i = i + 1;
            }
            proof {
                assert(rows_view(out@) =~= rows_view(out@) + rows_of_children(*n, next_base@, children@.len() as int));
            }
        },
    }
}

fn name_le_exec(a: &String, b: &String) -> (r: bool)
    ensures
        r == name_le(a@, b@),
{
    let x = str_chars(a.as_str());
    let y = str_chars(b.as_str());
    let mut i: usize = 0;
    assert(a@.skip(0) =~= a@);
    assert(b@.skip(0) =~= b@);
    while i < x.len() && i < y.len()
        invariant
            x@ == a@,
            y@ == b@,
            i <= x@.len(),
            i <= y@.len(),
            name_le(a@, b@) == name_le(a@.skip(i as int), b@.skip(i as int)),
        decreases x@.len() - i,
    {
        if x[i] != y[i] {
            proof {
                assert(a@.skip(i as int)[0] == x@[i as int]);
                assert(b@.skip(i as int)[0] == y@[i as int]);
            }
            return x[i] < y[i];
        }
        proof {
            assert(a@.skip(i as int).drop_first() =~= a@.skip(i + 1));
            assert(b@.skip(i as int).drop_first() =~= b@.skip(i + 1));
        }
        i = i + 1;
    }
    i == x.len()
}

/// Places a row into rows sorted by name, after every row whose name sorts
/// with or before its own; see `sorted_insert`.
fn insert_sorted(sorted: &mut Vec<CommandRow>, x: CommandRow)
    ensures
        rows_view(final(sorted)@) == sorted_insert(rows_view(old(sorted)@), row_view(x)),
{
    let ghost s = rows_view(sorted@);
    let ghost xv = row_view(x);
    let mut p = sorted.len();
    assert(s.take(s.len() as int) =~= s);
    assert(s.skip(s.len() as int) =~= Seq::<RowModel>::empty());
    assert(sorted_insert(s, xv) + Seq::<RowModel>::empty() =~= sorted_insert(s, xv));
    while p > 0 && !name_le_exec(&sorted[p - 1].name, &x.name)
        invariant
            p <= s.len(),
            s == rows_view(sorted@),
            xv == row_view(x),
            sorted_insert(s, xv) == sorted_insert(s.take(p as int), xv) + s.skip(p as int),
        decreases p,
    {
        proof {
            let t = s.take(p as int);
            assert(t.drop_last() =~= s.take(p - 1));
            assert(t.last() == s[p - 1]);
            assert(s.skip(p - 1) =~= seq![s[p - 1]] + s.skip(p as int));
            assert(sorted_insert(s.take(p - 1), xv).push(s[p - 1]) + s.skip(p as int) =~= sorted_insert(s.take(p - 1), xv) + s.skip(p - 1));
        }
        p = p - 1;
    }
    proof {
        if p > 0 {
            assert(s.take(p as int).drop_last() =~= s.take(p - 1));
            assert(s.take(p as int).last() == s[p - 1]);
        } else {
            assert(s.take(0) =~= Seq::<RowModel>::empty());
        }
    }
    sorted.insert(p, x);
    proof {
        assert(rows_view(sorted@) =~= s.take(p as int).push(xv) + s.skip(p as int));
        if p > 0 {
            assert(sorted_insert(s.take(p as int), xv) == s.take(p as int).push(xv));
        } else {
            assert(sorted_insert(s.take(0), xv) == seq![xv]);
            assert(s.take(0).push(xv) =~= seq![xv]);
        }
    }
}

/// Sorts rows by name, keeping the order of equal names; see
/// `sorted_by_name`.
fn sort_rows(rows: Vec<CommandRow>) -> (r: Vec<CommandRow>)
    ensures
        rows_view(r@) == sorted_by_name(rows_view(rows@)),
{
    let ghost all = rows_view(rows@);
    let mut rest = rows;
    let mut sorted: Vec<CommandRow> = Vec::new();
    let ghost mut i: int = 0;
    while rest.len() > 0
        invariant
            0 <= i <= all.len(),
            rest@.len() + i == all.len(),
            rows_view(rest@) == all.skip(i),
            rows_view(sorted@) == sorted_by_name(all.take(i)),
        decreases rest@.len(),
    {
        let ghost r0 = rest@;
        let x = rest.remove(0);
        proof {
            assert(x == r0[0]);
            assert(rows_view(r0)[0] == all.skip(i)[0]);
            assert(row_view(x) == all[i]);
            assert(rest@ =~= r0.remove(0));
            assert forall|k: int| 0 <= k < rest@.len() implies rows_view(rest@)[k] == all.skip(i + 1)[k] by {
                assert(rest@[k] == r0[k + 1]);
                assert(rows_view(r0)[k + 1] == all.skip(i)[k + 1]);
            }
            assert(rows_view(rest@) =~= all.skip(i + 1));
            assert(all.take(i + 1).drop_last() =~= all.take(i));
            assert(all.take(i + 1).last() == all[i]);
        }
        insert_sorted(&mut sorted, x);
        proof {
            i = i + 1;
        }
    }
    proof {
        assert(i == all.len());
        assert(all.take(i) =~= all);
    }
    sorted
}

fn padded_exec(name: &String, width: usize) -> (r: String)
    ensures
        r@ == padded(name@, width as nat),
{
    let mut cs = str_chars(name.as_str());
    if cs.len() < width {
        let ghost start = cs@;
        let mut k = cs.len();
        while k < width
            invariant
                start == name@,
                start.len() <= k <= width,
                cs@ == start + Seq::new((k - start.len()) as nat, |i: int| ' '),
            decreases width - k,
        {
            cs.push(' ');
            assert(cs@ =~= start + Seq::new((k + 1 - start.len()) as nat, |i: int| ' '));
            k = k + 1;
        }
    }
    chars_to_string(&cs)
}

/// Lists the commands under `command` for the commands panel: sorted by
/// name, each line the name padded to the longest name, a bar, and the keys.
/// Also gives the name and description of the row that the panel's
/// selection picks, `total_count` rows of other listings coming first.
pub fn format_commands<T>(panel: &TextPanel, command: &CommandKey<T>, total_count: usize) -> (r: (
    Option<(String, String)>,
    Vec<Vec<String>>,
))
    requires
        total_count + rows_of(*command, Seq::empty(), true).len() <= usize::MAX,
    ensures
        r.1@.map_values(|line: Vec<String>| line@.map_values(|t: String| t@)) == listing_lines(*command),
        ({
            let rows = sorted_by_name(rows_of(*command, Seq::empty(), true));
            match selected_row(panel@.selection, total_count, rows.len()) {
                Some(i) => r.0 matches Some((n, d)) && n@ == rows[i].name && d@ == rows[i].description,
                None => r.0 is None,
            }
        }),
{
    let mut rows: Vec<CommandRow> = Vec::new();
    let base: Vec<char> = Vec::new();
    collect_rows(command, &base, true, &mut rows);
    proof {
        assert(rows_view(rows@) =~= rows_of(*command, Seq::empty(), true));
    }
    let sorted = sort_rows(rows);
    let ghost sv = rows_view(sorted@);
    proof {
        lemma_sorted_len(rows_of(*command, Seq::empty(), true));
    }
    let mut width: usize = 0;
    let mut i: usize = 0;
    while i < sorted.len()
        invariant
            sv == rows_view(sorted@),
            i <= sorted@.len(),
            width == name_width(sv.take(i as int)),
        decreases sorted@.len() - i,
    {
        let len = str_chars(sorted[i].name.as_str()).len();
        proof {
            assert(sv.take(i + 1).drop_last() =~= sv.take(i as int));
            assert(sv.take(i + 1).last() == sv[i as int]);
        }
        if len > width {
            width = len;
        }
        i = i + 1;
    }
    proof {
        assert(sv.take(sorted@.len() as int) =~= sv);
    }
    let selection = panel.selection();
    let mut selected: Option<(String, String)> = None;
    let mut lines: Vec<Vec<String>> = Vec::new();
    let ghost expected = sv.map_values(|r: RowModel| seq![padded(r.name, name_width(sv)), " | "@, r.keys]);
    let mut j: usize = 0;
    while j < sorted.len()
        invariant
            sv == rows_view(sorted@),
            width == name_width(sv),
            j <= sorted@.len(),
            total_count + sorted@.len() <= usize::MAX,
            expected == sv.map_values(|r: RowModel| seq![padded(r.name, name_width(sv)), " | "@, r.keys]),
            lines@.map_values(|line: Vec<String>| line@.map_values(|t: String| t@)) == expected.take(j as int),
            match selected_row(selection, total_count, sv.len()) {
                Some(k) => if k < j {
                    selected matches Some((n, d)) && n@ == sv[k].name && d@ == sv[k].description
                } else {
                    selected is None
                },
                None => selected is None,
            },
        decreases sorted@.len() - j,
    {
        let row = &sorted[j];
        if selection != 0 && total_count + j == selection - 1 {
            selected = Some((copy_string(&row.name), copy_string(&row.description)));
        }
        let mut line: Vec<String> = Vec::new();
        line.push(padded_exec(&row.name, width));
        line.push(" | ".to_owned());
        line.push(copy_string(&row.keys));
        let ghost before = lines@.map_values(|line: Vec<String>| line@.map_values(|t: String| t@));
        lines.push(line);
        proof {
            assert(line@.map_values(|t: String| t@) =~= expected[j as int]);
            assert(lines@.map_values(|line: Vec<String>| line@.map_values(|t: String| t@)) =~= before.push(expected[j as int]));
            assert(expected.take(j + 1) =~= expected.take(j as int).push(expected[j as int]));
        }
        j = j + 1;
    }
    proof {
        assert(expected.take(sorted@.len() as int) =~= expected);
    }
    (selected, lines)
}

proof fn lemma_insert_len(s: Seq<RowModel>, x: RowModel)
    ensures
        sorted_insert(s, x).len() == s.len() + 1,
    decreases s.len(),
{
    if s.len() > 0 {
        lemma_insert_len(s.drop_last(), x);
    }
}

proof fn lemma_sorted_len(s: Seq<RowModel>)
    ensures
        sorted_by_name(s).len() == s.len(),
    decreases s.len(),
{
    if s.len() > 0 {
        lemma_sorted_len(s.drop_last());
        lemma_insert_len(sorted_by_name(s.drop_last()), s.last());
    }
}

proof fn lemma_name_le_total(a: Seq<char>, b: Seq<char>)
    ensures
        name_le(a, b) || name_le(b, a),
    decreases a.len(),
{
    if a.len() > 0 && b.len() > 0 && a[0] == b[0] {
        lemma_name_le_total(a.drop_first(), b.drop_first());
    }
}

proof fn lemma_name_le_trans(a: Seq<char>, b: Seq<char>, c: Seq<char>)
    requires
        name_le(a, b),
        name_le(b, c),
    ensures
        name_le(a, c),
    decreases a.len(),
{
    if a.len() > 0 && b.len() > 0 && c.len() > 0 && a[0] == b[0] && b[0] == c[0] {
        lemma_name_le_trans(a.drop_first(), b.drop_first(), c.drop_first());
    }
}

/// Whether rows come in order of their names.
pub open spec fn sorted_rows(s: Seq<RowModel>) -> bool {
    forall|i: int, j: int| 0 <= i < j < s.len() ==> name_le(#[trigger] s[i].name, #[trigger] s[j].name)
}

proof fn lemma_insert_sorted(s: Seq<RowModel>, x: RowModel)
    requires
        sorted_rows(s),
    ensures
        sorted_rows(sorted_insert(s, x)),
        sorted_insert(s, x).to_multiset() == s.to_multiset().insert(x),
        forall|k: int| 0 <= k < sorted_insert(s, x).len() ==> #[trigger] sorted_insert(s, x)[k] == x
            || exists|m: int| 0 <= m < s.len() && s[m] == sorted_insert(s, x)[k],
    decreases s.len(),
{
    broadcast use vstd::seq_lib::group_to_multiset_ensures;
    let r = sorted_insert(s, x);
    if s.len() == 0 {
        assert(r =~= seq![x]);
        assert(s =~= Seq::<RowModel>::empty());
        assert(seq![x] =~= Seq::<RowModel>::empty().push(x));
    } else if name_le(s.last().name, x.name) {
        assert forall|i: int, j: int| 0 <= i < j < r.len() implies name_le(#[trigger] r[i].name, #[trigger] r[j].name) by {
            if j == s.len() {
                if i < s.len() - 1 {
                    assert(name_le(s[i].name, s[s.len() - 1].name));
                    lemma_name_le_trans(s[i].name, s.last().name, x.name);
                }
            } else {
                assert(name_le(s[i].name, s[j].name));
            }
        }
        assert forall|k: int| 0 <= k < r.len() implies #[trigger] r[k] == x
            || exists|m: int| 0 <= m < s.len() && s[m] == r[k] by {
            if k < s.len() {
                assert(s[k] == r[k]);
            }
        }
    } else {
        let s0 = s.drop_last();
        assert(sorted_rows(s0)) by {
            assert forall|i: int, j: int| 0 <= i < j < s0.len() implies name_le(#[trigger] s0[i].name, #[trigger] s0[j].name) by {
                assert(name_le(s[i].name, s[j].name));
            }
        }
        lemma_insert_sorted(s0, x);
        let t = sorted_insert(s0, x);
        lemma_name_le_total(s.last().name, x.name);
        assert forall|k: int| 0 <= k < t.len() implies name_le(#[trigger] t[k].name, s.last().name) by {
            if t[k] != x {
                let m = choose|m: int| 0 <= m < s0.len() && s0[m] == t[k];
                assert(name_le(s[m].name, s[s.len() - 1].name));
            }
        }
        assert forall|i: int, j: int| 0 <= i < j < r.len() implies name_le(#[trigger] r[i].name, #[trigger] r[j].name) by {
            if j == t.len() {
                assert(name_le(t[i].name, s.last().name));
            } else {
                assert(name_le(t[i].name, t[j].name));
            }
        }
        assert forall|k: int| 0 <= k < r.len() implies #[trigger] r[k] == x
            || exists|m: int| 0 <= m < s.len() && s[m] == r[k] by {
            if k < t.len() {
                if t[k] != x {
                    let m = choose|m: int| 0 <= m < s0.len() && s0[m] == t[k];
                    assert(s[m] == r[k]);
                }
            } else {
                assert(s[s.len() - 1] == r[k]);
            }
        }
        assert(s =~= s0.push(s.last()));
        assert(s0.to_multiset().insert(x).insert(s.last()) =~= s0.to_multiset().insert(s.last()).insert(x));
    }
}

/// Sorting rows by name gives the same rows, each as often as before, in
/// order of their names.
pub proof fn lemma_sorted_by_name(s: Seq<RowModel>)
    ensures
        sorted_rows(sorted_by_name(s)),
        sorted_by_name(s).to_multiset() == s.to_multiset(),
    decreases s.len(),
{
    broadcast use vstd::seq_lib::group_to_multiset_ensures;
    if s.len() == 0 {
        assert(sorted_by_name(s) =~= s);
    } else {
        lemma_sorted_by_name(s.drop_last());
        lemma_insert_sorted(sorted_by_name(s.drop_last()), s.last());
        assert(s =~= s.drop_last().push(s.last()));
    }
}

/// The name width is the length of the longest name: no name is longer,
/// and, among some rows, one name is that long.
pub proof fn lemma_name_width(s: Seq<RowModel>)
    ensures
        forall|i: int| 0 <= i < s.len() ==> #[trigger] s[i].name.len() <= name_width(s),
        s.len() > 0 ==> exists|i: int| 0 <= i < s.len() && #[trigger] s[i].name.len() == name_width(s),
    decreases s.len(),
{
    if s.len() > 0 {
        lemma_name_width(s.drop_last());
        let s0 = s.drop_last();
        assert forall|i: int| 0 <= i < s.len() implies #[trigger] s[i].name.len() <= name_width(s) by {
            if i < s.len() - 1 {
                assert(s0[i] == s[i]);
            }
        }
        if s.last().name.len() <= name_width(s0) && s0.len() > 0 {
            let i = choose|i: int| 0 <= i < s0.len() && #[trigger] s0[i].name.len() == name_width(s0);
            assert(s[i] == s0[i]);
        } else {
            assert(s[s.len() - 1].name.len() == name_width(s));
        }
    }
}

} // verus!
