use vstd::prelude::*;

use crate::app::{AppState, AppStateModel, MessageChannel, MessageModel, StateChangeRequest};
use crate::autocomplete::{Completion, CompletionModel};
use crate::keys::KeyCode;
use crate::splits::Direction;
use crate::text_util::{chars_to_string, copy_string, decimal, number_to_string, str_chars};
use crate::text::{
    after_key, after_submit, is_editing_key, join_lines, key_fails, key_stroke_ok, text_appended,
    cursor_outside_message, EnterAction, PanelKind, TextPanel, TextPanelModel,
};

verus! {

/// The input panel: one line of text that is handed in on Enter, with
/// quick selection among the completions of the input request.
pub struct InputPanel {}

/// The selection after moving forward among `count` options.
pub open spec fn next_selection(selection: usize, count: nat) -> usize {
    if selection + 1 >= count {
        0
    } else {
        (selection + 1) as usize
    }
}

/// The selection after moving back among `count` options.
pub open spec fn previous_selection(selection: usize, count: nat) -> usize {
    if selection == 0 {
        (count - 1) as usize
    } else {
        (selection - 1) as usize
    }
}

/// The index of the option that a digit key picks: '1' picks the first,
/// up to '8'.
pub open spec fn quick_index(code: KeyCode) -> Option<int> {
    match code {
        KeyCode::Char(c) => if '1' <= c && c <= '8' {
            Some(c as int - 49)
        } else {
            None
        },
        _ => None,
    }
}

/// The panel with the rest of a completion typed in, the cursor moved past it.
pub open spec fn filled(m: TextPanelModel, c: CompletionModel) -> TextPanelModel {
    TextPanelModel { cursor: (m.cursor + c.remaining.len()) as usize, ..text_appended(m, c.remaining) }
}

pub open spec fn with_info(a: AppStateModel, text: Seq<char>) -> AppStateModel {
    AppStateModel { messages: a.messages.push(MessageModel { channel: MessageChannel::INFO, text }), ..a }
}

/// The rows that an input panel asks for: one of text and two of border,
/// two more when completions show, and one for each continuation of a long
/// text in a box `fixed_length` wide with its borders. The text's length is
/// counted in characters (a string's length in bytes, for text outside
/// ASCII, can be more).
pub open spec fn input_length(text_len: nat, fixed_length: u16, has_completer: bool) -> int {
    let max = fixed_length - 2;
    let cont = max - 4;
    let continuation_lines = if text_len >= max {
        1 + (text_len - max) / cont
    } else {
        0
    };
    (if has_completer { 5int } else { 3int }) + continuation_lines
}

/// The inputs on which `input_length` is computed without overflow or a
/// division by zero.
pub open spec fn input_length_ok(text_len: nat, fixed_length: u16) -> bool {
    &&& fixed_length >= 6
    &&& text_len <= u16::MAX
    &&& text_len >= fixed_length - 2 ==> fixed_length > 6
    &&& input_length(text_len, fixed_length, true) <= u16::MAX
}

/// The label of the quick-select option at `i`: its number, counted from
/// one, a space, and the option.
pub open spec fn quick_select_label(i: int, option: Seq<char>) -> Seq<char> {
    decimal((i + 1) as nat) + seq![' '] + option
}

/// The number of options that quick selection shows.
pub open spec fn shown_options(count: nat) -> nat {
    if count < 9 { count } else { 9 }
}

/// What an input panel shows as its title: the prompt of an input request
/// with completions, else the panel's own title.
pub open spec fn input_title(a: AppStateModel, p: TextPanelModel) -> Seq<char> {
    match a.input_request {
        Some(req) => if req.completer is Some { req.prompt } else { p.title },
        None => p.title,
    }
}

impl InputPanel {
    /// The labels of the options that quick selection shows (the first
    /// nine), each with whether it is the selected one.
    pub fn quick_select_labels(options: &Vec<Completion>, selection: usize) -> (r: Vec<(String, bool)>)
        ensures
            r@.len() == shown_options(options@.len()),
            forall|i: int| 0 <= i < r@.len() ==> {
                &&& (#[trigger] r@[i]).0@ == quick_select_label(i, options@[i]@.option)
                &&& r@[i].1 == (i == selection)
            },
    {
        let count: usize = if options.len() < 9 { options.len() } else { 9 };
        let mut r: Vec<(String, bool)> = Vec::new();
        let mut i: usize = 0;
        while i < count
            invariant
                count == shown_options(options@.len()),
                count <= options@.len(),
                i <= count,
                r@.len() == i,
                forall|j: int| 0 <= j < i ==> {
                    &&& (#[trigger] r@[j]).0@ == quick_select_label(j, options@[j]@.option)
                    &&& r@[j].1 == (j == selection)
                },
            decreases count - i,
        {
            let number = number_to_string((i + 1) as u64);
            let mut cs = str_chars(number.as_str());
            cs.push(' ');
            let option = str_chars(options[i].option().as_str());
            let mut k: usize = 0;
            let ghost start = cs@;
            while k < option.len()
                invariant
                    k <= option@.len(),
                    cs@ == start + option@.take(k as int),
                decreases option@.len() - k,
            {
                cs.push(option[k]);
                proof {
                    assert(option@.take(k + 1) =~= option@.take(k as int).push(option@[k as int]));
                }
                k = k + 1;
            }
            proof {
                assert(option@.take(option@.len() as int) =~= option@);
                assert(cs@ =~= quick_select_label(i as int, options@[i as int]@.option));
            }
            r.push((chars_to_string(&cs), i == selection));
            i = i + 1;
        }
        r
    }

    /// The title that an input panel shows; see `input_title`.
    pub fn panel_title(panel: &TextPanel, state: &AppState) -> (r: String)
        ensures
            r@ == input_title(state@, panel@),
    {
        match state.input_request() {
            Some(req) => match req.completer() {
                Some(_) => copy_string(req.prompt()),
                None => copy_string(panel.title()),
            },
            None => copy_string(panel.title()),
        }
    }

    /// Edits the input for a key stroke, Enter handing the text in.
    pub fn handle_key_stroke(panel: &mut TextPanel, code: KeyCode, state: &mut AppState) -> (r: (bool, Vec<StateChangeRequest>))
        requires
            key_stroke_ok(old(panel)@, code, EnterAction::Submit),
        ensures
            final(panel)@ == after_key(old(panel)@, code, EnterAction::Submit),
            r.0 == is_editing_key(code),
            final(state)@ == if key_fails(old(panel)@, code) {
                AppStateModel {
                    messages: old(state)@.messages.push(
                        MessageModel { channel: MessageChannel::ERROR, text: cursor_outside_message() },
                    ),
                    ..old(state)@
                }
            } else {
                old(state)@
            },
            code is Enter ==> (r.1@.len() == 1 && (r.1@[0] matches StateChangeRequest::InputComplete(t)
                && t@ == join_lines(old(panel)@.lines))),
            !(code is Enter) ==> r.1@.len() == 0,
    {
        panel.handle_key_stroke_internal(code, state, EnterAction::Submit)
    }

    /// Hands the text in as completed input, then clears it and the selection.
    pub fn submit_input(panel: &mut TextPanel, changes: &mut Vec<StateChangeRequest>)
        ensures
            final(panel)@ == after_submit(old(panel)@),
            final(changes)@.len() == old(changes)@.len() + 1,
            final(changes)@.take(old(changes)@.len() as int) == old(changes)@,
            final(changes)@.last() matches StateChangeRequest::InputComplete(t) && t@ == join_lines(
                old(panel)@.lines,
            ),
    {
        panel.submit_input(changes)
    }

    /// Moves the quick selection to the next of the completer's options,
    /// back to the first past the last; `options` are the completer's options
    /// for the panel's text, `None` when the input request has no completer.
    pub fn next_quick_select(panel: &mut TextPanel, _code: KeyCode, options: Option<&Vec<Completion>>) -> (r: (
        bool,
        Vec<StateChangeRequest>,
    ))
        requires
            options is Some ==> old(panel)@.selection < usize::MAX,
        ensures
            final(panel)@ == match options {
                None => old(panel)@,
                Some(o) => TextPanelModel {
                    selection: next_selection(old(panel)@.selection, o@.len()),
                    ..old(panel)@
                },
            },
            !r.0,
            r.1@.len() == 0,
    {
        match options {
            None => {},
            Some(o) => {
                let option_count = o.len();
                panel.set_selection(panel.selection() + 1);
                if panel.selection() >= option_count {
                    panel.set_selection(0);
                }
            },
        }
        (false, Vec::new())
    }

    /// Moves the quick selection to the previous option, to the last from
    /// the first.
    pub fn previous_quick_select(panel: &mut TextPanel, _code: KeyCode, options: Option<&Vec<Completion>>) -> (r: (
        bool,
        Vec<StateChangeRequest>,
    ))
        requires
            options matches Some(o) ==> old(panel)@.selection > 0 || o@.len() > 0,
        ensures
            final(panel)@ == match options {
                None => old(panel)@,
                Some(o) => TextPanelModel {
                    selection: previous_selection(old(panel)@.selection, o@.len()),
                    ..old(panel)@
                },
            },
            !r.0,
            r.1@.len() == 0,
    {
        match options {
            None => {},
            Some(o) => {
                let option_count = o.len();
                let selection = panel.selection();
                panel.set_selection(
                    if selection == 0 {
                        option_count - 1
                    } else {
                        selection - 1
                    },
                );
            },
        }
        (false, Vec::new())
    }

    /// Types in the rest of the option that a digit key picks.
    pub fn fill_quick_select(
        panel: &mut TextPanel,
        code: KeyCode,
        state: &mut AppState,
        options: Option<&Vec<Completion>>,
    ) -> (r: (bool, Vec<StateChangeRequest>))
        requires
            options matches Some(o) ==> (quick_index(code) matches Some(i) ==> (0 <= i < o@.len() ==> old(panel)@.cursor
                + o@[i]@.remaining.len() <= usize::MAX)),
        ensures
            final(state)@ == with_info(old(state)@, "Filling"@),
            final(panel)@ == match (options, quick_index(code)) {
                (Some(o), Some(i)) => if i < o@.len() {
                    filled(old(panel)@, o@[i]@)
                } else {
                    old(panel)@
                },
                _ => old(panel)@,
            },
            !r.0,
            r.1@.len() == 0,
    {
        state.add_info("Filling");
        match options {
            None => {},
            Some(o) => {
                let input: usize = match code {
                    KeyCode::Char(c) => {
                        if '1' <= c && c <= '8' {
                            (c as u32 - 49) as usize
                        } else {
                            return (false, Vec::new());
                        }
                    },
                    _ => return (false, Vec::new()),
                };
                if input < o.len() {
                    let selection = &o[input];
                    let remaining = selection.remaining();
                    let ghost m0 = panel@;
                    panel.append_text(remaining.as_str());
                    let n = remaining_len(remaining);
                    panel.set_cursor_index(panel.cursor_index_in_line() + n);
                    proof {
                        assert(panel@ == filled(m0, o@[input as int]@));
                    }
                } else {
                    return (false, Vec::new());
                }
            },
        }
        (false, Vec::new())
    }

    /// Types in the rest of the selected option; with no such option the
    /// selection goes back to the first.
    pub fn fill_current_quick_select(
        panel: &mut TextPanel,
        _code: KeyCode,
        state: &mut AppState,
        options: Option<&Vec<Completion>>,
    ) -> (r: (bool, Vec<StateChangeRequest>))
        requires
            options matches Some(o) ==> (old(panel)@.selection < o@.len() ==> old(panel)@.cursor
                + o@[old(panel)@.selection as int]@.remaining.len() <= usize::MAX),
        ensures
            final(state)@ == with_info(old(state)@, "Filling current"@),
            final(panel)@ == match options {
                Some(o) => if old(panel)@.selection < o@.len() {
                    filled(old(panel)@, o@[old(panel)@.selection as int]@)
                } else {
                    TextPanelModel { selection: 0, ..old(panel)@ }
                },
                None => old(panel)@,
            },
            !r.0,
            r.1@.len() == 0,
    {
        state.add_info("Filling current");
        match options {
            None => {},
            Some(o) => {
                let selection = panel.selection();
                if selection < o.len() {
                    let remaining = o[selection].remaining();
                    let ghost m0 = panel@;
                    panel.append_text(remaining.as_str());
                    let n = remaining_len(remaining);
                    panel.set_cursor_index(panel.cursor_index_in_line() + n);
                    proof {
                        assert(panel@ == filled(m0, o@[selection as int]@));
                    }
                } else {
                    panel.set_selection(0);
                }
            },
        }
        (false, Vec::new())
    }

    /// The rows that the input panel asks for in a split whose other
    /// dimension is `fixed_length`; see `input_length`.
    pub fn length_handler(
        panel: &TextPanel,
        fixed_length: u16,
        _flex_length: u16,
        _direction: Direction,
        state: &AppState,
    ) -> (r: u16)
        requires
            input_length_ok(join_lines(panel@.lines).len(), fixed_length),
        ensures
            r == input_length(
                join_lines(panel@.lines).len(),
                fixed_length,
                state@.input_request matches Some(req) && req.completer is Some,
            ),
    {
        // two of the box's cells are borders
        let max_text_length: u16 = fixed_length - 2;
        let continuation_length: u16 = max_text_length - 4;
        let text_len = remaining_len(&panel.text());
        let continuation_lines: u16 = if text_len >= max_text_length as usize {
            let remaining_length: u16 = text_len as u16 - max_text_length;
            1 + remaining_length / continuation_length
        } else {
            0
        };
        let base: u16 = match state.input_request() {
            Some(req) => match req.completer() {
                Some(_) => 5,
                None => 3,
            },
            None => 3,
        };
        base + continuation_lines
    }
}

impl TextPanel {
    /// The rows that the panel asks for in a split: an input panel asks for
    /// what `InputPanel::length_handler` gives; other panels ask for none and
    /// share what is left.
    pub fn get_length(&self, fixed_length: u16, flex_length: u16, direction: Direction, state: &AppState) -> (r: u16)
        requires
            self@.kind == PanelKind::Input ==> input_length_ok(join_lines(self@.lines).len(), fixed_length),
        ensures
            r == if self@.kind == PanelKind::Input {
                input_length(
                    join_lines(self@.lines).len(),
                    fixed_length,
                    state@.input_request matches Some(req) && req.completer is Some,
                ) as u16
            } else {
                0
            },
    {
        match self.kind() {
            PanelKind::Input => InputPanel::length_handler(self, fixed_length, flex_length, direction, state),
            _ => 0,
        }
    }

    /// Whether the panel can say how many rows it asks for when the split
    /// across it is `fixed_length` cells long.
    pub fn length_allowed(&self, fixed_length: u16) -> (r: bool)
        ensures
            r == (self@.kind == PanelKind::Input ==> input_length_ok(join_lines(self@.lines).len(), fixed_length)),
    {
        match self.kind() {
            PanelKind::Input => input_length_allowed(remaining_len(&self.text()), fixed_length),
            _ => true,
        }
    }
}

/// Whether the rows of an input panel with `text_len` characters can be
/// counted without overflow or a division by zero; see `input_length_ok`.
pub fn input_length_allowed(text_len: usize, fixed_length: u16) -> (r: bool)
    ensures
        r == input_length_ok(text_len as nat, fixed_length),
{
    if fixed_length < 6 || text_len > 65535 {
        return false;
    }
    let max: u64 = fixed_length as u64 - 2;
    let len: u64 = text_len as u64;
    if len >= max && fixed_length <= 6 {
        return false;
    }
    let continuation_lines: u64 = if len >= max {
        let cont: u64 = max - 4;
        1 + (len - max) / cont
    } else {
        0
    };
    proof {
        let tl = text_len as nat;
        if len >= max {
            assert(continuation_lines == 1 + (tl - (fixed_length - 2)) / ((fixed_length - 2) - 4));
        }
    }
    5 + continuation_lines <= 65535
}

/// The number of characters of a string (not of its UTF-8 bytes).
fn remaining_len(s: &String) -> (n: usize)
    ensures
        n == s@.len(),
{
    let cs = crate::text_util::str_chars(s.as_str());
    cs.len()
}


/// Moving the quick selection back undoes moving it forward.
pub proof fn lemma_previous_undoes_next(selection: usize, count: nat)
    requires
        selection < count <= usize::MAX,
    ensures
        previous_selection(next_selection(selection, count), count) == selection,
{
}

/// Moving the quick selection forward or back steps through the options in
/// a cycle: forward to the next one, from the last to the first; back to the
/// one before, from the first to the last.
pub proof fn lemma_selection_cycles(selection: usize, count: nat)
    requires
        selection < count <= usize::MAX,
    ensures
        next_selection(selection, count) == (selection + 1) % (count as int),
        previous_selection(selection, count) == (selection + count - 1) % (count as int),
{
    if selection + 1 < count {
        assert((selection + 1) % (count as int) == selection + 1) by (nonlinear_arith)
            requires 0 <= selection + 1 < count;
    } else {
        assert((selection + 1) % (count as int) == 0) by (nonlinear_arith)
            requires selection + 1 == count, count > 0;
    }
    if selection == 0 {
        assert((count - 1) % (count as int) == count - 1) by (nonlinear_arith)
            requires count > 0;
    } else {
        assert((selection + count - 1) % (count as int) == selection - 1) by (nonlinear_arith)
            requires 0 < selection < count;
    }
}

/// Filling in a completion types what remains of it at the end of the
/// current line and moves the cursor over it; nothing else changes.
pub proof fn lemma_fill_types_rest(m: TextPanelModel, c: CompletionModel)
    requires
        m.current_line < m.lines.len(),
        forall|j: int| 0 <= j < c.remaining.len() ==> c.remaining[j] != '\n',
        m.cursor + c.remaining.len() <= usize::MAX,
    ensures
        filled(m, c) == (TextPanelModel {
            lines: m.lines.update(m.current_line as int, m.lines[m.current_line as int] + c.remaining),
            cursor: (m.cursor + c.remaining.len()) as usize,
            ..m
        }),
        filled(m, c).cursor == m.cursor + c.remaining.len(),
{
    crate::text::lemma_append_single_line(m, c.remaining);
}

} // verus!
