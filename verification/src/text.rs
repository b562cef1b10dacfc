use vstd::prelude::*;

use crate::app::{AppState, AppStateModel, MessageChannel, MessageModel, StateChangeRequest};
use crate::autocomplete::CompleterKind;
use crate::keys::KeyCode;
use crate::render::{Rect, CURSOR_MAX_X, CURSOR_MAX_Y};
use crate::text_util::{chars_sub, chars_to_string, copy_string, decimal, number_to_string, str_chars};

verus! {

/// What a text panel is waiting for.
#[derive(Debug, Clone, Copy, PartialEq, Eq, Structural)]
pub enum PanelState {
    Normal,
    WaitingToOpen,
    WaitingToSave,
}

/// The kind of a panel, which decides how it renders and which commands
/// it takes.
#[derive(Debug, Clone, Copy, PartialEq, Eq, Structural)]
pub enum PanelKind {
    /// An empty slot of the panel store.
    Null,
    Edit,
    Input,
    Messages,
}

pub type PanelTypeID = &'static str;

pub const EDIT_PANEL_TYPE_ID: &'static str = "Edit";
pub const INPUT_PANEL_TYPE_ID: &'static str = "Input";
pub const COMMANDS_PANEL_TYPE_ID: &'static str = "Commands";
pub const MESSAGE_PANEL_TYPE_ID: &'static str = "Messages";
pub const NULL_PANEL_TYPE_ID: &'static str = "Null";

/// The panel type names differ from each other.
pub proof fn lemma_type_ids_distinct()
    ensures
        NULL_PANEL_TYPE_ID@ != EDIT_PANEL_TYPE_ID@,
        NULL_PANEL_TYPE_ID@ != MESSAGE_PANEL_TYPE_ID@,
        NULL_PANEL_TYPE_ID@ != INPUT_PANEL_TYPE_ID@,
        EDIT_PANEL_TYPE_ID@ != MESSAGE_PANEL_TYPE_ID@,
        EDIT_PANEL_TYPE_ID@ != INPUT_PANEL_TYPE_ID@,
        MESSAGE_PANEL_TYPE_ID@ != INPUT_PANEL_TYPE_ID@,
{
    reveal_strlit("Null");
    reveal_strlit("Edit");
    reveal_strlit("Messages");
    reveal_strlit("Input");
    assert(NULL_PANEL_TYPE_ID@[0] != EDIT_PANEL_TYPE_ID@[0]);
    assert(NULL_PANEL_TYPE_ID@[0] != MESSAGE_PANEL_TYPE_ID@[0]);
    assert(NULL_PANEL_TYPE_ID@[0] != INPUT_PANEL_TYPE_ID@[0]);
    assert(EDIT_PANEL_TYPE_ID@[0] != MESSAGE_PANEL_TYPE_ID@[0]);
    assert(EDIT_PANEL_TYPE_ID@[0] != INPUT_PANEL_TYPE_ID@[0]);
    assert(MESSAGE_PANEL_TYPE_ID@[0] != INPUT_PANEL_TYPE_ID@[0]);
}

/// The type name of a panel kind.
pub open spec fn kind_name(kind: PanelKind) -> Seq<char> {
    match kind {
        PanelKind::Null => NULL_PANEL_TYPE_ID@,
        PanelKind::Edit => EDIT_PANEL_TYPE_ID@,
        PanelKind::Input => INPUT_PANEL_TYPE_ID@,
        PanelKind::Messages => MESSAGE_PANEL_TYPE_ID@,
    }
}

/// A panel holding lines of text with a cursor. Lines are held as
/// characters, and every position and length in a line (the cursor, where a
/// long line wraps) counts characters, not UTF-8 bytes; for ASCII text the
/// two are the same.
pub struct TextPanel {
    current_line: usize,
    cursor_index_in_line: usize,
    title: String,
    file_path: Option<String>,
    scroll_y: u16,
    lines: Vec<Vec<char>>,
    visible: bool,
    kind: PanelKind,
    state: PanelState,
    selection: usize,
}

/// A text panel as a value.
pub struct TextPanelModel {
    pub lines: Seq<Seq<char>>,
    pub current_line: usize,
    pub cursor: usize,
    pub title: Seq<char>,
    pub file_path: Option<Seq<char>>,
    pub scroll_y: u16,
    pub visible: bool,
    pub kind: PanelKind,
    pub state: PanelState,
    pub selection: usize,
}

pub open spec fn lines_view(lines: Seq<Vec<char>>) -> Seq<Seq<char>> {
    lines.map_values(|l: Vec<char>| l@)
}

pub open spec fn path_view(p: Option<String>) -> Option<Seq<char>> {
    match p {
        Some(s) => Some(s@),
        None => None,
    }
}

impl View for TextPanel {
    type V = TextPanelModel;

    closed spec fn view(&self) -> TextPanelModel {
        TextPanelModel {
            lines: lines_view(self.lines@),
            current_line: self.current_line,
            cursor: self.cursor_index_in_line,
            title: self.title@,
            file_path: path_view(self.file_path),
            scroll_y: self.scroll_y,
            visible: self.visible,
            kind: self.kind,
            state: self.state,
            selection: self.selection,
        }
    }
}

/// A fresh panel of the given kind: no text, cursor and scroll at the start.
pub open spec fn fresh_panel(kind: PanelKind) -> TextPanelModel {
    TextPanelModel {
        lines: Seq::empty(),
        current_line: 0,
        cursor: 0,
        title: Seq::empty(),
        file_path: None,
        scroll_y: 0,
        visible: true,
        kind,
        state: PanelState::Normal,
        selection: 0,
    }
}

/// The lines of a text: the pieces between newline characters, as
/// `str::split('\n')` gives them.
pub open spec fn split_lines(s: Seq<char>) -> Seq<Seq<char>>
    decreases s.len(),
{
    if s.len() == 0 {
        seq![Seq::empty()]
    } else {
        let r = split_lines(s.drop_last());
        if s.last() == '\n' {
            r.push(Seq::empty())
        } else {
            r.update(r.len() - 1, r.last().push(s.last()))
        }
    }
}

/// Lines joined into one text with a newline between each two.
pub open spec fn join_lines(lines: Seq<Seq<char>>) -> Seq<char>
    decreases lines.len(),
{
    if lines.len() == 0 {
        Seq::empty()
    } else if lines.len() == 1 {
        lines[0]
    } else {
        join_lines(lines.drop_last()).push('\n') + lines.last()
    }
}

pub proof fn lemma_split_nonempty(s: Seq<char>)
    ensures
        split_lines(s).len() >= 1,
    decreases s.len(),
{
    if s.len() > 0 {
        lemma_split_nonempty(s.drop_last());
    }
}

impl TextPanel {
    pub fn default() -> (p: Self)
        ensures
            p@ == fresh_panel(PanelKind::Null),
    {
        let p = TextPanel {
            current_line: 0,
            cursor_index_in_line: 0,
            title: String::new(),
            file_path: None,
            scroll_y: 0,
            lines: Vec::new(),
            visible: true,
            kind: PanelKind::Null,
            state: PanelState::Normal,
            selection: 0,
        };
        assert(lines_view(p.lines@) =~= Seq::<Seq<char>>::empty());
        p
    }

    fn of_kind(kind: PanelKind) -> (p: Self)
        ensures
            p@ == fresh_panel(kind),
    {
        let mut p = TextPanel::default();
        p.kind = kind;
        p
    }

    pub fn edit_panel() -> (p: Self)
        ensures
            p@ == fresh_panel(PanelKind::Edit),
    {
        TextPanel::of_kind(PanelKind::Edit)
    }

    pub fn input_panel() -> (p: Self)
        ensures
            p@ == fresh_panel(PanelKind::Input),
    {
        TextPanel::of_kind(PanelKind::Input)
    }

    pub fn messages_panel() -> (p: Self)
        ensures
            p@ == fresh_panel(PanelKind::Messages),
    {
        TextPanel::of_kind(PanelKind::Messages)
    }

    /// The whole text: the lines joined by newlines.
    pub fn text(&self) -> (s: String)
        ensures
            s@ == join_lines(self@.lines),
    {
        let mut all: Vec<char> = Vec::new();
        let mut i: usize = 0;
        while i < self.lines.len()
            invariant
                i <= self.lines@.len(),
                all@ == join_lines(lines_view(self.lines@).take(i as int)),
            decreases self.lines@.len() - i,
        {
            let ghost before = all@;
            if i > 0 {
                all.push('\n');
            }
            let line = &self.lines[i];
            let mut j: usize = 0;
            let ghost mid = all@;
            while j < line.len()
                invariant
                    j <= line@.len(),
                    all@ == mid + line@.take(j as int),
                decreases line@.len() - j,
            {
                all.push(line[j]);
                assert(line@.take(j + 1) =~= line@.take(j as int).push(line@[j as int]));
                j = j + 1;
            }
            proof {
                let ls = lines_view(self.lines@);
                assert(ls.take(i + 1).drop_last() =~= ls.take(i as int));
                assert(ls.take(i + 1).last() == line@);
                assert(line@.take(line@.len() as int) =~= line@);
                if i == 0 {
                    assert(all@ =~= line@);
                } else {
                    assert(all@ =~= before.push('\n') + line@);
                }
            }
            i = i + 1;
        }
        proof {
            assert(lines_view(self.lines@).take(self.lines@.len() as int) =~= lines_view(self.lines@));
        }
        chars_to_string(&all)
    }

    /// Replaces the text with the lines of `text`; the cursor stays where it
    /// was.
    pub fn set_text(&mut self, text: &str)
        ensures
            final(self)@ == (TextPanelModel { lines: split_lines(text@), ..old(self)@ }),
    {
        let cs = str_chars(text);
        let mut lines: Vec<Vec<char>> = Vec::new();
        let mut cur: Vec<char> = Vec::new();
        let mut i: usize = 0;
        while i < cs.len()
            invariant
                cs@ == text@,
                i <= cs@.len(),
                lines_view(lines@).push(cur@) == split_lines(cs@.take(i as int)),
            decreases cs@.len() - i,
        {
            let ghost before = lines_view(lines@).push(cur@);
            proof {
                assert(cs@.take(i + 1).drop_last() =~= cs@.take(i as int));
            }
            if cs[i] == '\n' {
                let mut done: Vec<char> = Vec::new();
                std::mem::swap(&mut done, &mut cur);
                lines.push(done);
                proof {
                    assert(lines_view(lines@).push(cur@) =~= before.push(Seq::empty()));
                }
            } else {
                cur.push(cs[i]);
                proof {
                    assert(lines_view(lines@).push(cur@) =~= before.update(
                        before.len() - 1,
                        before.last().push(cs@[i as int]),
                    ));
                }
            }
            i = i + 1;
        }
        let ghost before = lines_view(lines@).push(cur@);
        lines.push(cur);
        proof {
            assert(cs@.take(cs@.len() as int) =~= text@);
            assert(lines_view(lines@) =~= before);
        }
        self.lines = lines;
    }
}


/// What the Enter key does in a panel.
#[derive(Debug, Clone, Copy, PartialEq, Eq, Structural)]
pub enum EnterAction {
    /// Start a new line.
    Newline,
    /// Hand the text in as completed input.
    Submit,
}

/// The message logged when the cursor is found past the end of its line.
pub open spec fn cursor_outside_message() -> Seq<char> {
    "Cursor outside of current line. Resetting to start of line."@
}

/// Joining the current line onto the one before it, when there is one.
pub open spec fn after_remove_line(m: TextPanelModel) -> TextPanelModel {
    if m.current_line != 0 {
        let cl = m.current_line as int;
        let rest = m.lines.remove(cl);
        let prev = rest[cl - 1];
        TextPanelModel {
            lines: rest.update(cl - 1, prev + m.lines[cl]),
            current_line: (m.current_line - 1) as usize,
            cursor: prev.len() as usize,
            ..m
        }
    } else {
        m
    }
}

/// Whether removing a character `adj` places before the cursor finds the
/// cursor past the end of the line.
pub open spec fn remove_char_fails(m: TextPanelModel, adj: nat) -> bool {
    m.current_line < m.lines.len() && !(m.cursor - adj < m.lines[m.current_line as int].len())
}

/// Removing the character `adj` places before the cursor and moving the
/// cursor back by `mv`; the cursor goes to the line start when it is past
/// the end of the line.
pub open spec fn after_remove_char(m: TextPanelModel, adj: nat, mv: nat) -> TextPanelModel {
    if m.current_line < m.lines.len() {
        let cl = m.current_line as int;
        let line = m.lines[cl];
        if m.cursor - adj < line.len() {
            TextPanelModel {
                lines: m.lines.update(cl, line.remove(m.cursor - adj)),
                cursor: (m.cursor - mv) as usize,
                ..m
            }
        } else {
            TextPanelModel { cursor: 0, ..m }
        }
    } else {
        m
    }
}

/// A new empty line at the end of the text, with the cursor at the start of
/// the line after the current one.
pub open spec fn after_newline(m: TextPanelModel) -> TextPanelModel {
    TextPanelModel {
        lines: m.lines.push(Seq::empty()),
        current_line: (m.current_line + 1) as usize,
        cursor: 0,
        ..m
    }
}

/// The text cleared and the quick selection reset.
pub open spec fn after_submit(m: TextPanelModel) -> TextPanelModel {
    TextPanelModel { lines: seq![Seq::<char>::empty()], selection: 0, ..m }
}

/// A character typed at the cursor; without a current line it starts a new
/// line at the end.
pub open spec fn after_insert_char(m: TextPanelModel, c: char) -> TextPanelModel {
    let cl = m.current_line as int;
    TextPanelModel {
        lines: if m.current_line < m.lines.len() {
            m.lines.update(cl, m.lines[cl].insert(m.cursor as int, c))
        } else {
            m.lines.push(seq![c])
        },
        cursor: (m.cursor + 1) as usize,
        ..m
    }
}

/// Whether a key is one that editing handles.
pub open spec fn is_editing_key(code: KeyCode) -> bool {
    code is Backspace || code is Delete || code is Enter || code is Char
}

/// The inputs on which a key stroke can be handled.
pub open spec fn key_stroke_ok(m: TextPanelModel, code: KeyCode, enter: EnterAction) -> bool {
    match code {
        KeyCode::Backspace => m.cursor == 0 ==> (m.current_line == 0 || m.current_line
            < m.lines.len()),
        KeyCode::Delete => (m.current_line < m.lines.len() && m.cursor == m.lines[m.current_line as int].len())
            ==> m.current_line + 1 < m.lines.len(),
        KeyCode::Enter => enter == EnterAction::Newline ==> m.current_line < usize::MAX,
        KeyCode::Char(_) => if m.current_line < m.lines.len() {
            m.cursor <= m.lines[m.current_line as int].len()
        } else {
            m.cursor < usize::MAX
        },
        _ => true,
    }
}

/// A panel after a key stroke.
pub open spec fn after_key(m: TextPanelModel, code: KeyCode, enter: EnterAction) -> TextPanelModel {
    match code {
        KeyCode::Backspace => if m.cursor == 0 {
            after_remove_line(m)
        } else {
            after_remove_char(m, 1, 1)
        },
        KeyCode::Delete => if m.current_line < m.lines.len() {
            if m.cursor == m.lines[m.current_line as int].len() {
                after_remove_line(TextPanelModel { current_line: (m.current_line + 1) as usize, ..m })
            } else {
                after_remove_char(m, 0, 0)
            }
        } else {
            m
        },
        KeyCode::Enter => match enter {
            EnterAction::Newline => after_newline(m),
            EnterAction::Submit => after_submit(m),
        },
        KeyCode::Char(c) => after_insert_char(m, c),
        _ => m,
    }
}

/// Whether a key stroke finds the cursor past the end of its line.
pub open spec fn key_fails(m: TextPanelModel, code: KeyCode) -> bool {
    match code {
        KeyCode::Backspace => m.cursor != 0 && remove_char_fails(m, 1),
        KeyCode::Delete => m.current_line < m.lines.len() && m.cursor != m.lines[m.current_line as int].len()
            && remove_char_fails(m, 0),
        _ => false,
    }
}

/// A panel with `text` added at the end of its current line: the first
/// line of `text` joins the current line (or starts a new one when there is
/// none), the others follow as new lines at the end.
pub open spec fn text_appended(m: TextPanelModel, text: Seq<char>) -> TextPanelModel {
    let pieces = split_lines(text);
    let cl = m.current_line as int;
    TextPanelModel {
        lines: (if m.current_line < m.lines.len() {
            m.lines.update(cl, m.lines[cl] + pieces[0])
        } else {
            m.lines.push(pieces[0])
        }) + pieces.drop_first(),
        ..m
    }
}

impl TextPanel {
    /// Adds text at the end of the current line: the first line of `text`
    /// joins the current line (or starts a new one when there is none), the
    /// others follow as new lines at the end.
    pub fn append_text(&mut self, text: &str)
        ensures
            final(self)@ == text_appended(old(self)@, text@),
    {
        let mut other = TextPanel::default();
        other.set_text(text);
        proof {
            lemma_split_nonempty(text@);
        }
        let ghost pieces = split_lines(text@);
        let ghost start = lines_view(self.lines@);
        let mut pieces_vec = other.lines;
        let mut first: Vec<char> = Vec::new();
        pieces_vec.set_and_swap(0, &mut first);
        assert(first@ == pieces[0]);
        if self.current_line < self.lines.len() {
            let mut line: Vec<char> = Vec::new();
            self.lines.set_and_swap(self.current_line, &mut line);
            line.append(&mut first);
            self.lines.set(self.current_line, line);
        } else {
            self.lines.push(first);
        }
        let ghost mid = lines_view(self.lines@);
        proof {
            let m = old(self)@;
            let cl = m.current_line as int;
            assert(mid =~= if m.current_line < m.lines.len() {
                m.lines.update(cl, m.lines[cl] + pieces[0])
            } else {
                m.lines.push(pieces[0])
            });
        }
        let mut k: usize = 1;
        while k < pieces_vec.len()
            invariant
                1 <= k <= pieces_vec@.len(),
                pieces_vec@.len() == pieces.len(),
                forall|j: int| k <= j < pieces.len() ==> (#[trigger] pieces_vec@[j])@ == pieces[j],
                lines_view(self.lines@) =~= mid + pieces.drop_first().take(k - 1),
                self.current_line == old(self).current_line,
                self.cursor_index_in_line == old(self).cursor_index_in_line,
                self.title == old(self).title,
                self.file_path == old(self).file_path,
                self.scroll_y == old(self).scroll_y,
                self.visible == old(self).visible,
                self.kind == old(self).kind,
                self.state == old(self).state,
                self.selection == old(self).selection,
            decreases pieces_vec@.len() - k,
        {
            let mut piece: Vec<char> = Vec::new();
            let ghost before = lines_view(self.lines@);
            pieces_vec.set_and_swap(k, &mut piece);
            proof {
                assert(piece@ == pieces.drop_first()[k - 1]);
                assert(pieces.drop_first().take(k as int) =~= pieces.drop_first().take(k - 1).push(piece@));
            }
            self.lines.push(piece);
            proof {
                assert(lines_view(self.lines@) =~= before.push(piece@));
            }
            k = k + 1;
        }
        proof {
            assert(pieces.drop_first().take(pieces.len() - 1) =~= pieces.drop_first());
        }
    }
}

impl TextPanel {
    fn remove_character(&mut self, index_adjustment: usize, movement: usize, state: &mut AppState)
        requires
            index_adjustment <= old(self)@.cursor,
            movement <= old(self)@.cursor,
        ensures
            final(self)@ == after_remove_char(old(self)@, index_adjustment as nat, movement as nat),
            final(state)@ == if remove_char_fails(old(self)@, index_adjustment as nat) {
                AppStateModel {
                    messages: old(state)@.messages.push(
                        MessageModel { channel: MessageChannel::ERROR, text: cursor_outside_message() },
                    ),
                    ..old(state)@
                }
            } else {
                old(state)@
            },
    {
        if self.current_line < self.lines.len() {
            let mut line: Vec<char> = Vec::new();
            self.lines.set_and_swap(self.current_line, &mut line);
            if self.cursor_index_in_line - index_adjustment < line.len() {
                line.remove(self.cursor_index_in_line - index_adjustment);
                self.cursor_index_in_line = self.cursor_index_in_line - movement;
                self.lines.set(self.current_line, line);
                proof {
                    assert(lines_view(self.lines@) =~= old(self)@.lines.update(
                        old(self).current_line as int,
                        old(self)@.lines[old(self).current_line as int].remove(
                            old(self).cursor_index_in_line - index_adjustment,
                        ),
                    ));
                }
            } else {
                self.lines.set(self.current_line, line);
                proof {
                    assert(lines_view(self.lines@) =~= old(self)@.lines);
                }
                self.cursor_index_in_line = 0;
                state.add_error("Cursor outside of current line. Resetting to start of line.");
            }
        }
    }

    fn remove_line(&mut self)
        requires
            old(self)@.current_line != 0 ==> old(self)@.current_line < old(self)@.lines.len(),
        ensures
            final(self)@ == after_remove_line(old(self)@),
    {
        if self.current_line != 0 {
            let mut remaining = self.lines.remove(self.current_line);
            self.current_line = self.current_line - 1;
            let mut line: Vec<char> = Vec::new();
            self.lines.set_and_swap(self.current_line, &mut line);
            let existing_len = line.len();
            line.append(&mut remaining);
            self.lines.set(self.current_line, line);
            self.cursor_index_in_line = existing_len;
            proof {
                let m = old(self)@;
                let cl = m.current_line as int;
                let rest = m.lines.remove(cl);
                assert(lines_view(old(self).lines@.remove(cl)) =~= rest);
                assert(lines_view(self.lines@) =~= rest.update(cl - 1, rest[cl - 1] + m.lines[cl]));
            }
        }
    }

    /// A new empty line at the end of the text, with the cursor on the line
    /// after the current one.
    pub fn enter_newline(&mut self)
        requires
            old(self)@.current_line < usize::MAX,
        ensures
            final(self)@ == after_newline(old(self)@),
    {
        self.lines.push(Vec::new());
        self.current_line = self.current_line + 1;
        self.cursor_index_in_line = 0;
        proof {
            assert(lines_view(self.lines@) =~= old(self)@.lines.push(Seq::empty()));
        }
    }

    /// Hands the text in as completed input, then clears it.
    pub fn submit_input(&mut self, changes: &mut Vec<StateChangeRequest>)
        ensures
            final(self)@ == after_submit(old(self)@),
            final(changes)@.len() == old(changes)@.len() + 1,
            final(changes)@.take(old(changes)@.len() as int) == old(changes)@,
            final(changes)@.last() matches StateChangeRequest::InputComplete(t) && t@ == join_lines(
                old(self)@.lines,
            ),
    {
        let t = self.text();
        changes.push(StateChangeRequest::input_complete(t));
        self.set_text("");
        self.selection = 0;
        proof {
            reveal_strlit("");
            assert(split_lines(""@) =~= seq![Seq::<char>::empty()]);
            assert(final(changes)@.take(old(changes)@.len() as int) =~= old(changes)@);
        }
    }

    /// Edits the text for a key stroke: Backspace and Delete remove a
    /// character or join lines, Enter does `enter`, a character is typed at
    /// the cursor. Other keys are not handled.
    pub fn handle_key_stroke_internal(
        &mut self,
        code: KeyCode,
        state: &mut AppState,
        enter: EnterAction,
    ) -> (r: (bool, Vec<StateChangeRequest>))
        requires
            key_stroke_ok(old(self)@, code, enter),
        ensures
            final(self)@ == after_key(old(self)@, code, enter),
            r.0 == is_editing_key(code),
            final(state)@ == if key_fails(old(self)@, code) {
                AppStateModel {
                    messages: old(state)@.messages.push(
                        MessageModel { channel: MessageChannel::ERROR, text: cursor_outside_message() },
                    ),
                    ..old(state)@
                }
            } else {
                old(state)@
            },
            code is Enter && enter == EnterAction::Submit ==> (r.1@.len() == 1 && (r.1@[0] matches StateChangeRequest::InputComplete(
                t,
            ) && t@ == join_lines(old(self)@.lines))),
            !(code is Enter && enter == EnterAction::Submit) ==> r.1@.len() == 0,
    {
        let mut changes: Vec<StateChangeRequest> = Vec::new();
        match code {
            KeyCode::Backspace => {
                if self.cursor_index_in_line == 0 {
                    self.remove_line();
                } else {
                    self.remove_character(1, 1, state);
                }
            },
            KeyCode::Delete => {
                if self.current_line < self.lines.len() {
                    if self.cursor_index_in_line == self.lines[self.current_line].len() {
                        self.current_line = self.current_line + 1;
                        self.remove_line();
                    } else {
                        self.remove_character(0, 0, state);
                    }
                }
            },
            KeyCode::Enter => {
                match enter {
                    EnterAction::Newline => self.enter_newline(),
                    EnterAction::Submit => self.submit_input(&mut changes),
                }
            },
            KeyCode::Char(c) => {
                if self.current_line < self.lines.len() {
                    let mut line: Vec<char> = Vec::new();
                    self.lines.set_and_swap(self.current_line, &mut line);
                    line.insert(self.cursor_index_in_line, c);
                    let new_len = line.len();
                    assert(self.cursor_index_in_line < new_len);
                    self.lines.set(self.current_line, line);
                    proof {
                        let m = old(self)@;
                        let cl = m.current_line as int;
                        assert(lines_view(self.lines@) =~= m.lines.update(
                            cl,
                            m.lines[cl].insert(m.cursor as int, c),
                        ));
                    }
                } else {
                    let mut line: Vec<char> = Vec::new();
                    line.push(c);
                    self.lines.push(line);
                    proof {
                        assert(lines_view(self.lines@) =~= old(self)@.lines.push(seq![c]));
                    }
                }
                self.cursor_index_in_line = self.cursor_index_in_line + 1;
            },
            _ => {
                return (false, changes);
            },
        }
        (true, changes)
    }

    /// Edits the text for a key stroke, Enter starting a new line.
    pub fn handle_key_stroke(&mut self, code: KeyCode, state: &mut AppState) -> (r: (bool, Vec<StateChangeRequest>))
        requires
            key_stroke_ok(old(self)@, code, EnterAction::Newline),
        ensures
            final(self)@ == after_key(old(self)@, code, EnterAction::Newline),
            r.0 == is_editing_key(code),
            final(state)@ == if key_fails(old(self)@, code) {
                AppStateModel {
                    messages: old(state)@.messages.push(
                        MessageModel { channel: MessageChannel::ERROR, text: cursor_outside_message() },
                    ),
                    ..old(state)@
                }
            } else {
                old(state)@
            },
            r.1@.len() == 0,
    {
        self.handle_key_stroke_internal(code, state, EnterAction::Newline)
    }
}

/// The message shown to ask for a file name.
pub open spec fn file_name_prompt() -> Seq<char> {
    "File Name"@
}

/// What a panel needs from outside once the user typed input for it.
pub enum FileRequest {
    /// Open the named file into the panel.
    Open(String),
    /// Save the panel into the named file.
    Save(String),
}

/// A file request as a value.
pub enum FileRequestModel {
    Open(Seq<char>),
    Save(Seq<char>),
}

impl View for FileRequest {
    type V = FileRequestModel;

    open spec fn view(&self) -> FileRequestModel {
        match self {
            FileRequest::Open(n) => FileRequestModel::Open(n@),
            FileRequest::Save(n) => FileRequestModel::Save(n@),
        }
    }
}

/// What typed input asks of a panel: an edit panel waiting for a file name
/// asks for the file to be opened or saved.
pub open spec fn input_request_for(p: TextPanelModel, input: Seq<char>) -> Option<FileRequestModel> {
    if p.kind == PanelKind::Edit && p.state == PanelState::WaitingToOpen {
        Some(FileRequestModel::Open(input))
    } else if p.kind == PanelKind::Edit && p.state == PanelState::WaitingToSave {
        Some(FileRequestModel::Save(input))
    } else {
        None
    }
}

/// What saving a panel needs.
pub enum SaveStep {
    /// No file yet: ask the user for a file name with these requests.
    AskForPath(Vec<StateChangeRequest>),
    /// Write `contents` to the file at `path`.
    Write { path: String, contents: String },
}

/// The text written when saving: each line followed by a newline.
pub open spec fn saved_contents(lines: Seq<Seq<char>>) -> Seq<char>
    decreases lines.len(),
{
    if lines.len() == 0 {
        Seq::empty()
    } else {
        saved_contents(lines.drop_last()) + lines.last().push('\n')
    }
}

impl TextPanel {
    /// The lines of text.
    pub fn lines(&self) -> (r: Vec<String>)
        ensures
            r@.len() == self@.lines.len(),
            forall|i: int| 0 <= i < r@.len() ==> (#[trigger] r@[i])@ == self@.lines[i],
    {
        let mut r: Vec<String> = Vec::new();
        let mut i: usize = 0;
        while i < self.lines.len()
            invariant
                i <= self.lines@.len(),
                r@.len() == i,
                forall|k: int| 0 <= k < i ==> (#[trigger] r@[k])@ == self@.lines[k],
            decreases self.lines@.len() - i,
        {
            r.push(chars_to_string(&self.lines[i]));
            i = i + 1;
        }
        r
    }

    /// The number of lines.
    pub fn line_count(&self) -> (r: usize)
        ensures
            r == self@.lines.len(),
    {
        self.lines.len()
    }

    /// The length of the line at `index`, if there is one.
    pub fn line_len(&self, index: usize) -> (r: Option<usize>)
        ensures
            r == if index < self@.lines.len() {
                Some(self@.lines[index as int].len() as usize)
            } else {
                None::<usize>
            },
            index < self@.lines.len() ==> self@.lines[index as int].len() <= usize::MAX,
    {
        if index < self.lines.len() {
            Some(self.lines[index].len())
        } else {
            None
        }
    }

    pub fn selection(&self) -> (r: usize)
        ensures
            r == self@.selection,
    {
        self.selection
    }

    pub fn set_selection(&mut self, selection: usize)
        ensures
            final(self)@ == (TextPanelModel { selection, ..old(self)@ }),
    {
        self.selection = selection;
    }

    pub fn title(&self) -> (r: &String)
        ensures
            r@ == self@.title,
    {
        &self.title
    }

    pub fn set_title(&mut self, title: String)
        ensures
            final(self)@ == (TextPanelModel { title: title@, ..old(self)@ }),
    {
        self.title = title;
    }

    pub fn current_line(&self) -> (r: usize)
        ensures
            r == self@.current_line,
    {
        self.current_line
    }

    pub fn set_current_line(&mut self, current_line: usize)
        ensures
            final(self)@ == (TextPanelModel { current_line, ..old(self)@ }),
    {
        self.current_line = current_line;
    }

    pub fn cursor_index_in_line(&self) -> (r: usize)
        ensures
            r == self@.cursor,
    {
        self.cursor_index_in_line
    }

    pub fn set_cursor_index(&mut self, index: usize)
        ensures
            final(self)@ == (TextPanelModel { cursor: index, ..old(self)@ }),
    {
        self.cursor_index_in_line = index;
    }

    pub fn scroll_y(&self) -> (r: u16)
        ensures
            r == self@.scroll_y,
    {
        self.scroll_y
    }

    pub fn set_scroll_y(&mut self, y: u16)
        ensures
            final(self)@ == (TextPanelModel { scroll_y: y, ..old(self)@ }),
    {
        self.scroll_y = y;
    }

    pub fn state(&self) -> (r: PanelState)
        ensures
            r == self@.state,
    {
        self.state
    }

    pub fn file_path(&self) -> (r: Option<&String>)
        ensures
            match r {
                Some(p) => self@.file_path == Some(p@),
                None => self@.file_path is None,
            },
    {
        self.file_path.as_ref()
    }

    pub fn set_file_path(&mut self, path: String)
        ensures
            final(self)@ == (TextPanelModel { file_path: Some(path@), ..old(self)@ }),
    {
        self.file_path = Some(path);
    }

    /// The width of the gutter between line numbers and text.
    pub fn gutter_size(&self) -> (r: u16)
        ensures
            r == 5,
    {
        5
    }

    /// The marker in front of each continuation of a wrapped line.
    pub fn continuation_marker(&self) -> (r: String)
        ensures
            r@ == continuation_marker_text(),
    {
        "... ".to_owned()
    }

    /// The type name of the panel.
    pub fn panel_type(&self) -> (r: PanelTypeID)
        ensures
            r@ == kind_name(self@.kind),
    {
        match self.kind {
            PanelKind::Null => NULL_PANEL_TYPE_ID,
            PanelKind::Edit => EDIT_PANEL_TYPE_ID,
            PanelKind::Input => INPUT_PANEL_TYPE_ID,
            PanelKind::Messages => MESSAGE_PANEL_TYPE_ID,
        }
    }

    pub fn kind(&self) -> (r: PanelKind)
        ensures
            r == self@.kind,
    {
        self.kind
    }

    pub fn show(&mut self)
        ensures
            final(self)@ == (TextPanelModel { visible: true, ..old(self)@ }),
    {
        self.visible = true;
    }

    pub fn conceal(&mut self)
        ensures
            final(self)@ == (TextPanelModel { visible: false, ..old(self)@ }),
    {
        self.visible = false;
    }

    pub fn visible(&self) -> (r: bool)
        ensures
            r == self@.visible,
    {
        self.visible
    }

    /// Puts the cursor after the last character of the last line.
    pub fn set_cursor_to_end(&mut self)
        ensures
            final(self)@ == if old(self)@.lines.len() > 0 {
                TextPanelModel {
                    current_line: (old(self)@.lines.len() - 1) as usize,
                    cursor: old(self)@.lines.last().len() as usize,
                    ..old(self)@
                }
            } else {
                TextPanelModel { current_line: 0, cursor: 0, ..old(self)@ }
            },
    {
        if self.lines.len() > 0 {
            self.current_line = self.lines.len() - 1;
            self.cursor_index_in_line = self.lines[self.current_line].len();
        } else {
            self.current_line = 0;
            self.cursor_index_in_line = 0;
        }
    }

    /// Moves the cursor one character on, to the start of the next line
    /// when it is past the end of a line that has a next one.
    pub fn move_to_next_character(&mut self, _code: KeyCode, _state: &mut AppState) -> (r: (bool, Vec<StateChangeRequest>))
        requires
            old(self)@.current_line < old(self)@.lines.len() ==> old(self)@.cursor < usize::MAX,
        ensures
            r.0,
            r.1@.len() == 0,
            *final(_state) == *old(_state),
            final(self)@ == after_next_character(old(self)@),
    {
        if self.current_line < self.lines.len() {
            if self.cursor_index_in_line + 1 > self.lines[self.current_line].len()
                && self.current_line + 1 < self.lines.len() {
                self.cursor_index_in_line = 0;
                self.current_line = self.current_line + 1;
            } else {
                self.cursor_index_in_line = self.cursor_index_in_line + 1;
            }
        } else {
            self.cursor_index_in_line = 0;
        }
        (true, Vec::new())
    }

    /// Moves the cursor one character back, to the end of the previous line
    /// from the start of a line.
    pub fn move_to_previous_character(&mut self, _code: KeyCode, _state: &mut AppState) -> (r: (bool, Vec<StateChangeRequest>))
        ensures
            r.0,
            r.1@.len() == 0,
            *final(_state) == *old(_state),
            final(self)@ == after_previous_character(old(self)@),
    {
        if self.cursor_index_in_line > 0 {
            self.cursor_index_in_line = self.cursor_index_in_line - 1;
        } else if self.current_line > 0 {
            self.current_line = self.current_line - 1;
            self.cursor_index_in_line = if self.current_line < self.lines.len() {
                self.lines[self.current_line].len()
            } else {
                0
            };
        }
        (true, Vec::new())
    }

    /// Moves to the next line, keeping the cursor within it.
    pub fn move_to_next_line(&mut self, _code: KeyCode, _state: &mut AppState) -> (r: (bool, Vec<StateChangeRequest>))
        requires
            old(self)@.current_line < usize::MAX,
        ensures
            r.0,
            r.1@.len() == 0,
            *final(_state) == *old(_state),
            final(self)@ == after_next_line(old(self)@),
    {
        if self.current_line + 1 < self.lines.len() {
            self.current_line = self.current_line + 1;
            let len = self.lines[self.current_line].len();
            if self.cursor_index_in_line > len {
                self.cursor_index_in_line = len;
            }
        }
        (true, Vec::new())
    }

    /// Moves to the previous line, keeping the cursor within it.
    pub fn move_to_previous_line(&mut self, _code: KeyCode, _state: &mut AppState) -> (r: (bool, Vec<StateChangeRequest>))
        ensures
            r.0,
            r.1@.len() == 0,
            *final(_state) == *old(_state),
            final(self)@ == after_previous_line(old(self)@),
    {
        if self.current_line > 0 {
            self.current_line = self.current_line - 1;
            if self.current_line < self.lines.len() {
                let len = self.lines[self.current_line].len();
                if self.cursor_index_in_line > len {
                    self.cursor_index_in_line = len;
                }
            } else {
                self.cursor_index_in_line = 0;
            }
        }
        (true, Vec::new())
    }

    fn scroll_down(&mut self, amount: u16)
        ensures
            final(self)@ == (TextPanelModel {
                scroll_y: if old(self)@.scroll_y < u16::MAX - amount {
                    (old(self)@.scroll_y + amount) as u16
                } else {
                    u16::MAX
                },
                ..old(self)@
            }),
    {
        if self.scroll_y < u16::MAX - amount {
            self.scroll_y = self.scroll_y + amount;
        } else {
            self.scroll_y = u16::MAX;
        }
    }

    fn scroll_up(&mut self, amount: u16)
        ensures
            final(self)@ == (TextPanelModel {
                scroll_y: if old(self)@.scroll_y >= amount {
                    (old(self)@.scroll_y - amount) as u16
                } else {
                    0
                },
                ..old(self)@
            }),
    {
        if self.scroll_y >= amount {
            self.scroll_y = self.scroll_y - amount;
        } else {
            self.scroll_y = 0;
        }
    }

    pub fn scroll_down_one(&mut self, _code: KeyCode, _state: &mut AppState) -> (r: (bool, Vec<StateChangeRequest>))
        ensures
            r.0,
            r.1@.len() == 0,
            *final(_state) == *old(_state),
            final(self)@ == (TextPanelModel { scroll_y: scrolled_down(old(self)@.scroll_y, 1), ..old(self)@ }),
    {
        self.scroll_down(1);
        (true, Vec::new())
    }

    pub fn scroll_up_one(&mut self, _code: KeyCode, _state: &mut AppState) -> (r: (bool, Vec<StateChangeRequest>))
        ensures
            r.0,
            r.1@.len() == 0,
            *final(_state) == *old(_state),
            final(self)@ == (TextPanelModel { scroll_y: scrolled_up(old(self)@.scroll_y, 1), ..old(self)@ }),
    {
        self.scroll_up(1);
        (true, Vec::new())
    }

    /// Scrolls down ten lines, but not past the number of lines (taken modulo
    /// 2^16).
    pub fn scroll_down_ten(&mut self, _code: KeyCode, _state: &mut AppState) -> (r: (bool, Vec<StateChangeRequest>))
        ensures
            r.0,
            r.1@.len() == 0,
            *final(_state) == *old(_state),
            final(self)@ == after_scroll_down_ten(old(self)@),
    {
        let limit = truncate_to_u16(self.lines.len());
        self.scroll_down(10);
        if self.scroll_y > limit {
            self.scroll_y = limit;
        }
        (true, Vec::new())
    }

    pub fn scroll_up_ten(&mut self, _code: KeyCode, _state: &mut AppState) -> (r: (bool, Vec<StateChangeRequest>))
        ensures
            r.0,
            r.1@.len() == 0,
            *final(_state) == *old(_state),
            final(self)@ == (TextPanelModel { scroll_y: scrolled_up(old(self)@.scroll_y, 10), ..old(self)@ }),
    {
        self.scroll_up(10);
        (true, Vec::new())
    }

    /// Asks for the name of a file to open into the panel.
    pub fn open_file(&mut self, _code: KeyCode, _state: &mut AppState) -> (r: (bool, Vec<StateChangeRequest>))
        ensures
            r.0,
            r.1@.len() == 1,
            r.1@[0] matches StateChangeRequest::Input(p, c) && p@ == file_name_prompt() && c == Some(
                CompleterKind::Files,
            ),
            *final(_state) == *old(_state),
            final(self)@ == (TextPanelModel { state: PanelState::WaitingToOpen, ..old(self)@ }),
    {
        self.state = PanelState::WaitingToOpen;
        let mut changes = Vec::new();
        changes.push(
            StateChangeRequest::input_request_with_completer("File Name".to_owned(), CompleterKind::Files),
        );
        (true, changes)
    }

    /// Saving: without a file yet the panel waits for a file name and asks
    /// for one; with a file, the lines each followed by a newline are to be
    /// written to it.
    pub fn save(&mut self) -> (r: SaveStep)
        ensures
            match old(self)@.file_path {
                None => {
                    &&& final(self)@ == (TextPanelModel { state: PanelState::WaitingToSave, ..old(self)@ })
                    &&& r matches SaveStep::AskForPath(changes)
                    &&& changes@.len() == 1
                    &&& changes@[0] matches StateChangeRequest::Input(p, c) && p@ == file_name_prompt()
                        && c == Some(CompleterKind::Files)
                },
                Some(path) => {
                    &&& final(self)@ == old(self)@
                    &&& r matches SaveStep::Write { path: p, contents }
                    &&& p@ == path
                    &&& contents@ == saved_contents(old(self)@.lines)
                },
            },
    {
        match &self.file_path {
            None => {
                self.state = PanelState::WaitingToSave;
                let mut changes = Vec::new();
                changes.push(
                    StateChangeRequest::input_request_with_completer(
                        "File Name".to_owned(),
                        CompleterKind::Files,
                    ),
                );
                SaveStep::AskForPath(changes)
            },
            Some(path) => {
                let path = copy_string(path);
                let mut all: Vec<char> = Vec::new();
                let mut i: usize = 0;
                while i < self.lines.len()
                    invariant
                        i <= self.lines@.len(),
                        all@ == saved_contents(lines_view(self.lines@).take(i as int)),
                    decreases self.lines@.len() - i,
                {
                    let ghost before = all@;
                    let line = &self.lines[i];
                    let mut j: usize = 0;
                    while j < line.len()
                        invariant
                            j <= line@.len(),
                            all@ == before + line@.take(j as int),
                        decreases line@.len() - j,
                    {
                        all.push(line[j]);
                        assert(line@.take(j + 1) =~= line@.take(j as int).push(line@[j as int]));
                        j = j + 1;
                    }
                    all.push('\n');
                    proof {
                        let ls = lines_view(self.lines@);
                        assert(ls.take(i + 1).drop_last() =~= ls.take(i as int));
                        assert(line@.take(line@.len() as int) =~= line@);
                        assert(all@ =~= before + line@.push('\n'));
                    }
                    i = i + 1;
                }
                proof {
                    assert(lines_view(self.lines@).take(self.lines@.len() as int) =~= lines_view(self.lines@));
                }
                SaveStep::Write { path, contents: chars_to_string(&all) }
            },
        }
    }

    /// The save command: saves as `save` does, and handles the key.
    pub fn save_buffer(&mut self, _code: KeyCode, _state: &mut AppState) -> (r: (bool, SaveStep))
        ensures
            r.0,
            *final(_state) == *old(_state),
            match old(self)@.file_path {
                None => {
                    &&& final(self)@ == (TextPanelModel { state: PanelState::WaitingToSave, ..old(self)@ })
                    &&& r.1 matches SaveStep::AskForPath(changes)
                    &&& changes@.len() == 1
                    &&& changes@[0] matches StateChangeRequest::Input(p, c) && p@ == file_name_prompt()
                        && c == Some(CompleterKind::Files)
                },
                Some(path) => {
                    &&& final(self)@ == old(self)@
                    &&& r.1 matches SaveStep::Write { path: p, contents }
                    &&& p@ == path
                    &&& contents@ == saved_contents(old(self)@.lines)
                },
            },
    {
        (true, self.save())
    }

    /// Typed input for the panel: an edit panel waiting for a file name asks
    /// for that file to be opened or saved; otherwise nothing happens.
    pub fn receive_input(&mut self, input: String) -> (r: Option<FileRequest>)
        ensures
            final(self)@ == old(self)@,
            match r {
                Some(req) => input_request_for(old(self)@, input@) == Some(req@),
                None => input_request_for(old(self)@, input@) is None,
            },
    {
        match self.kind {
            PanelKind::Edit => TextEditPanel::input_handler(self, input),
            _ => None,
        }
    }

    /// A file was read for the panel: its text and title, and the panel
    /// scrolled to the top.
    pub fn finish_open(&mut self, text: &str, title: String, path: String)
        ensures
            final(self)@ == (TextPanelModel {
                lines: split_lines(text@),
                title: title@,
                file_path: Some(path@),
                scroll_y: 0,
                ..old(self)@
            }),
    {
        self.set_text(text);
        self.title = title;
        self.file_path = Some(path);
        self.scroll_y = 0;
    }
}

/// The panel after moving the cursor one character on.
pub open spec fn after_next_character(m: TextPanelModel) -> TextPanelModel {
    if m.current_line < m.lines.len() {
        if m.cursor + 1 > m.lines[m.current_line as int].len() && m.current_line + 1
            < m.lines.len() {
            TextPanelModel { cursor: 0, current_line: (m.current_line + 1) as usize, ..m }
        } else {
            TextPanelModel { cursor: (m.cursor + 1) as usize, ..m }
        }
    } else {
        TextPanelModel { cursor: 0, ..m }
    }
}

/// The panel after moving the cursor one character back.
pub open spec fn after_previous_character(m: TextPanelModel) -> TextPanelModel {
    if m.cursor > 0 {
        TextPanelModel { cursor: (m.cursor - 1) as usize, ..m }
    } else if m.current_line > 0 {
        TextPanelModel {
            current_line: (m.current_line - 1) as usize,
            cursor: if m.current_line - 1 < m.lines.len() {
                m.lines[m.current_line - 1].len() as usize
            } else {
                0
            },
            ..m
        }
    } else {
        m
    }
}

/// The panel after moving to the next line.
pub open spec fn after_next_line(m: TextPanelModel) -> TextPanelModel {
    if m.current_line + 1 < m.lines.len() {
        let next = m.lines[m.current_line + 1];
        TextPanelModel {
            current_line: (m.current_line + 1) as usize,
            cursor: if m.cursor > next.len() {
                next.len() as usize
            } else {
                m.cursor
            },
            ..m
        }
    } else {
        m
    }
}

/// The panel after moving to the previous line.
pub open spec fn after_previous_line(m: TextPanelModel) -> TextPanelModel {
    if m.current_line > 0 {
        if m.current_line - 1 < m.lines.len() {
            let prev = m.lines[m.current_line - 1];
            TextPanelModel {
                current_line: (m.current_line - 1) as usize,
                cursor: if m.cursor > prev.len() {
                    prev.len() as usize
                } else {
                    m.cursor
                },
                ..m
            }
        } else {
            TextPanelModel { current_line: (m.current_line - 1) as usize, cursor: 0, ..m }
        }
    } else {
        m
    }
}

/// The panel after scrolling down ten lines, but not past the number of
/// lines (taken modulo 2^16).
pub open spec fn after_scroll_down_ten(m: TextPanelModel) -> TextPanelModel {
    let limit = (m.lines.len() % 65536) as u16;
    let down = scrolled_down(m.scroll_y, 10);
    TextPanelModel { scroll_y: if down > limit { limit } else { down }, ..m }
}

/// The edit panel: text edited freely, opened from and saved to files.
pub struct TextEditPanel {}

impl TextEditPanel {
    /// Input typed for an edit panel: the name of the file to open or to
    /// save to, when the panel waits for one. Reading or writing the file is
    /// outside work that the request hands on.
    pub fn input_handler(panel: &mut TextPanel, input: String) -> (r: Option<FileRequest>)
        requires
            old(panel)@.kind == PanelKind::Edit,
        ensures
            final(panel)@ == old(panel)@,
            match r {
                Some(req) => input_request_for(old(panel)@, input@) == Some(req@),
                None => input_request_for(old(panel)@, input@) is None,
            },
    {
        match panel.state() {
            PanelState::WaitingToOpen => Some(FileRequest::Open(input)),
            PanelState::WaitingToSave => Some(FileRequest::Save(input)),
            PanelState::Normal => None,
        }
    }
}

/// The messages panel: shows the application's messages.
pub struct MessagesPanel {}

/// An empty slot of the panel store.
pub struct NullPanel {}

impl NullPanel {
    pub fn new() -> (p: Self) {
        NullPanel {}
    }
}

/// The marker in front of each continuation of a wrapped line.
pub open spec fn continuation_marker_text() -> Seq<char> {
    "... "@
}

pub open spec fn scrolled_down(y: u16, amount: u16) -> u16 {
    if y < u16::MAX - amount {
        (y + amount) as u16
    } else {
        u16::MAX
    }
}

pub open spec fn scrolled_up(y: u16, amount: u16) -> u16 {
    if y >= amount {
        (y - amount) as u16
    } else {
        0
    }
}

/// The low sixteen bits of a number.
fn truncate_to_u16(n: usize) -> (r: u16)
    ensures
        r == n % 65536,
{
    (n % 65536) as u16
}

/// Display rows as values: each row a list of spans of text.
pub open spec fn rows_view(rows: Seq<Vec<String>>) -> Seq<Seq<Seq<char>>> {
    rows.map_values(|r: Vec<String>| r@.map_values(|t: String| t@))
}

pub open spec fn strings_view(v: Seq<String>) -> Seq<Seq<char>> {
    v.map_values(|t: String| t@)
}

/// The continuation rows of a wrapped line: while at least `cont`
/// characters remain, a row with the marker and the next `cont` of them;
/// then a row with the marker and what is left.
pub open spec fn wrapped_rest(next: Seq<char>, cont: nat) -> Seq<Seq<Seq<char>>>
    decreases next.len(),
{
    if cont > 0 && next.len() >= cont {
        seq![seq![continuation_marker_text(), next.take(cont as int)]] + wrapped_rest(next.skip(cont as int), cont)
    } else {
        seq![seq![continuation_marker_text(), next]]
    }
}

/// The display rows of a line in a box `max` cells wide: the line itself if
/// it is shorter; else its first `max` characters, then continuation rows
/// of `max` less the marker's length. Lengths count characters, not bytes.
pub open spec fn wrapped_rows(line: Seq<char>, max: nat) -> Seq<Seq<Seq<char>>> {
    if line.len() < max {
        seq![seq![line]]
    } else {
        seq![seq![line.take(max as int)]] + wrapped_rest(line.skip(max as int), (max - 4) as nat)
    }
}

/// The gutter rows beside a line: its number, then a dot for each of its
/// continuation rows.
pub open spec fn line_gutter(line: Seq<char>, max: nat, number: nat) -> Seq<Seq<char>> {
    seq![decimal(number)] + Seq::new((wrapped_rows(line, max).len() - 1) as nat, |j: int| "."@)
}

/// The rows of the `k`th line of the window from `scroll`.
pub open spec fn window_line(lines: Seq<Seq<char>>, scroll: nat, max: nat, k: nat) -> Seq<Seq<Seq<char>>> {
    if scroll + k < lines.len() {
        wrapped_rows(lines[(scroll + k) as int], max)
    } else {
        Seq::empty()
    }
}

/// The rows of the first `count` lines of the window from `scroll`.
pub open spec fn window_rows(lines: Seq<Seq<char>>, scroll: nat, max: nat, count: nat) -> Seq<Seq<Seq<char>>>
    decreases count,
{
    if count == 0 {
        Seq::empty()
    } else {
        window_rows(lines, scroll, max, (count - 1) as nat) + window_line(lines, scroll, max, (count - 1) as nat)
    }
}

/// The gutter rows of the first `count` lines of the window from `scroll`.
pub open spec fn window_gutter(lines: Seq<Seq<char>>, scroll: nat, max: nat, count: nat) -> Seq<Seq<char>>
    decreases count,
{
    if count == 0 {
        Seq::empty()
    } else {
        let k = (count - 1) as nat;
        window_gutter(lines, scroll, max, k) + if scroll + k < lines.len() {
            line_gutter(lines[(scroll + k) as int], max, scroll + k + 1)
        } else {
            Seq::empty()
        }
    }
}

/// The cursor position within a wrapped line, counted from the start of
/// the row it settles in: past each row that it goes beyond, the row's
/// length is taken off, the first row being `first` long and the `count`
/// others `cont` long.
pub open spec fn settle_rest(pos: nat, cont: nat, count: nat) -> nat
    decreases count,
{
    if count == 0 || pos <= cont {
        pos
    } else {
        settle_rest((pos - cont) as nat, cont, (count - 1) as nat)
    }
}

pub open spec fn settle(pos: nat, first: nat, cont: nat, count: nat) -> nat {
    if pos <= first {
        pos
    } else {
        settle_rest((pos - first) as nat, cont, count)
    }
}

/// Whether the current line is in the window.
pub open spec fn cursor_shown(m: TextPanelModel, rect: Rect) -> bool {
    m.scroll_y <= m.current_line < m.scroll_y + rect.height && m.current_line < m.lines.len()
}

/// The number of rows up to and including the current line's.
pub open spec fn rows_to_cursor(m: TextPanelModel, rect: Rect) -> nat {
    window_rows(m.lines, m.scroll_y as nat, rect.width as nat, (m.current_line - m.scroll_y + 1) as nat).len()
}

/// Where the cursor shows: on the last row of the current line, after the
/// marker on a wrapped line.
pub open spec fn content_cursor(m: TextPanelModel, rect: Rect) -> (u16, u16) {
    if cursor_shown(m, rect) {
        let line = m.lines[m.current_line as int];
        let max = rect.width as nat;
        let y = (rect.y + rows_to_cursor(m, rect) % 65536 - 1) as u16;
        let x = if line.len() < max {
            (rect.x + m.cursor % 65536) as u16
        } else {
            (rect.x + 4 + settle(m.cursor as nat, max, (max - 4) as nat, (wrapped_rows(line, max).len() - 1) as nat)
                % 65536) as u16
        };
        (x, y)
    } else {
        (CURSOR_MAX_X, CURSOR_MAX_Y)
    }
}

/// The inputs on which laying out a panel's text neither overflows nor
/// fails to end: line numbers fit in 16 bits, a box that must wrap a line
/// is wider than the marker, and the cursor's cell fits in 16 bits.
pub open spec fn content_ok(m: TextPanelModel, rect: Rect) -> bool {
    &&& m.scroll_y + rect.height <= u16::MAX
    &&& forall|k: int|
        0 <= k < rect.height && m.scroll_y + k < m.lines.len() && #[trigger] m.lines[m.scroll_y + k].len()
            >= rect.width ==> rect.width > 4
    &&& cursor_shown(m, rect) ==> {
        let line = m.lines[m.current_line as int];
        let max = rect.width as nat;
        &&& 1 <= rect.y + rows_to_cursor(m, rect) % 65536 <= u16::MAX
        &&& line.len() < max ==> rect.x + m.cursor % 65536 <= u16::MAX
        &&& line.len() >= max ==> rect.x + 4 + settle(m.cursor as nat, max, (max - 4) as nat, (wrapped_rows(line, max).len() - 1) as nat) % 65536 <= u16::MAX
    }
}

proof fn lemma_wrapped_rest_len(next: Seq<char>, cont: nat)
    ensures
        wrapped_rest(next, cont).len() >= 1,
    decreases next.len(),
{
    if cont > 0 && next.len() >= cont {
        lemma_wrapped_rest_len(next.skip(cont as int), cont);
    }
}

proof fn lemma_marker_len()
    ensures
        continuation_marker_text().len() == 4,
{
    reveal_strlit("... ");
}

/// The display rows of one line; see `wrapped_rows`.
fn wrap_line(line: &Vec<char>, max: usize) -> (rows: Vec<Vec<String>>)
    requires
        line@.len() >= max ==> max > 4,
    ensures
        rows_view(rows@) == wrapped_rows(line@, max as nat),
{
    let mut rows: Vec<Vec<String>> = Vec::new();
    if line.len() < max {
        let mut row: Vec<String> = Vec::new();
        row.push(chars_to_string(line));
        rows.push(row);
        assert(rows_view(rows@) =~~= wrapped_rows(line@, max as nat));
        return rows;
    }
    proof {
        lemma_marker_len();
    }
    let mut first: Vec<String> = Vec::new();
    first.push(chars_to_string(&chars_sub(line, 0, max)));
    rows.push(first);
    let cont: usize = max - 4;
    let mut start: usize = max;
    proof {
        assert(line@.subrange(0, max as int) =~= line@.take(max as int));
        assert(rows_view(rows@) =~~= seq![seq![line@.take(max as int)]]);
    }
    while line.len() - start >= cont
        invariant
            max <= start <= line@.len(),
            cont == max - 4,
            cont > 0,
            continuation_marker_text().len() == 4,
            line@.len() >= max,
            rows_view(rows@) + wrapped_rest(line@.skip(start as int), cont as nat) == wrapped_rows(line@, max as nat),
        decreases line@.len() - start,
    {
        let ghost r0 = rows_view(rows@);
        let mut row: Vec<String> = Vec::new();
        row.push("... ".to_owned());
        row.push(chars_to_string(&chars_sub(line, start, start + cont)));
        rows.push(row);
        proof {
            let next = line@.skip(start as int);
            assert(next.take(cont as int) =~= line@.subrange(start as int, start + cont));
            assert(next.skip(cont as int) =~= line@.skip(start + cont));
            assert(rows_view(rows@) =~~= r0.push(seq![continuation_marker_text(), next.take(cont as int)]));
            assert(wrapped_rest(next, cont as nat) == seq![seq![continuation_marker_text(), next.take(cont as int)]]
                + wrapped_rest(next.skip(cont as int), cont as nat));
            assert(r0.push(seq![continuation_marker_text(), next.take(cont as int)]) + wrapped_rest(next.skip(cont as int), cont as nat)
                =~= r0 + wrapped_rest(next, cont as nat));
        }
        start = start + cont;
    }
    let ghost r0 = rows_view(rows@);
    let mut last: Vec<String> = Vec::new();
    last.push("... ".to_owned());
    last.push(chars_to_string(&chars_sub(line, start, line.len())));
    rows.push(last);
    proof {
        let next = line@.skip(start as int);
        assert(line@.subrange(start as int, line@.len() as int) =~= next);
        assert(wrapped_rest(next, cont as nat) == seq![seq![continuation_marker_text(), next]]);
        assert(rows_view(rows@) =~~= r0 + wrapped_rest(next, cont as nat));
    }
    rows
}

/// The gutter rows beside one line; see `line_gutter`.
fn gutter_for(rows: usize, number: u16) -> (g: Vec<String>)
    requires
        rows >= 1,
    ensures
        strings_view(g@) == seq![decimal(number as nat)] + Seq::new((rows - 1) as nat, |j: int| "."@),
{
    let mut g: Vec<String> = Vec::new();
    g.push(number_to_string(number as u64));
    let mut i: usize = 1;
    while i < rows
        invariant
            1 <= i <= rows,
            strings_view(g@) =~= seq![decimal(number as nat)] + Seq::new((i - 1) as nat, |j: int| "."@),
        decreases rows - i,
    {
        let ghost g0 = strings_view(g@);
        let dot = ".".to_owned();
        assert(dot@ == "."@);
        g.push(dot);
        assert(strings_view(g@) =~= g0.push("."@));
        i = i + 1;
    }
    g
}

impl TextPanel {
    /// Lays out the panel's text in a box: the display rows from the scrolled
    /// line on, one line per row of the box, long lines wrapped; the cursor's
    /// cell; and the gutter rows with line numbers.
    pub fn make_text_content(&self, rect: Rect) -> (r: (Vec<Vec<String>>, (u16, u16), Vec<String>))
        requires
            content_ok(self@, rect),
        ensures
            rows_view(r.0@) == window_rows(self@.lines, self@.scroll_y as nat, rect.width as nat, rect.height as nat),
            r.1 == content_cursor(self@, rect),
            strings_view(r.2@) == window_gutter(self@.lines, self@.scroll_y as nat, rect.width as nat, rect.height as nat),
    {
        let ghost m = self@;
        let max = rect.width as usize;
        let mut cursor: (u16, u16) = (CURSOR_MAX_X, CURSOR_MAX_Y);
        let mut lines: Vec<Vec<String>> = Vec::new();
        let mut gutter: Vec<String> = Vec::new();
        let mut real_line_count: u16 = self.scroll_y;
        let mut i: u16 = 0;
        while i < rect.height
            invariant
                m == self@,
                content_ok(m, rect),
                max == rect.width,
                i <= rect.height,
                real_line_count == self.scroll_y + i,
                rows_view(lines@) == window_rows(m.lines, m.scroll_y as nat, max as nat, i as nat),
                strings_view(gutter@) == window_gutter(m.lines, m.scroll_y as nat, max as nat, i as nat),
                cursor == if cursor_shown(m, rect) && m.current_line < m.scroll_y + i {
                    content_cursor(m, rect)
                } else {
                    (CURSOR_MAX_X, CURSOR_MAX_Y)
                },
            decreases rect.height - i,
        {
            let true_index = (i + self.scroll_y) as usize;
            real_line_count = real_line_count + 1;
            let ghost k = i as nat;
            if true_index < self.lines.len() {
                let line = &self.lines[true_index];
                proof {
                    assert(line@ == m.lines[m.scroll_y + k]);
                    if line@.len() >= max {
                        assert(m.lines[m.scroll_y + (k as int)].len() >= rect.width);
                    }
                }
                let mut rows = wrap_line(line, max);
                let row_count = rows.len();
                proof {
                    assert(rows_view(rows@).len() == rows@.len());
                    if line@.len() >= max {
                        lemma_wrapped_rest_len(line@.skip(max as int), (max - 4) as nat);
                    }
                }
                let mut g = gutter_for(row_count, real_line_count);
                let ghost l0 = rows_view(lines@);
                let ghost g0 = strings_view(gutter@);
                let ghost rv = rows_view(rows@);
                let ghost gv = strings_view(g@);
                lines.append(&mut rows);
                gutter.append(&mut g);
                proof {
                    assert(rows_view(lines@) =~= l0 + rv);
                    assert(strings_view(gutter@) =~= g0 + gv);
                    assert(window_line(m.lines, m.scroll_y as nat, max as nat, k) == rv);
                }
                if true_index == self.current_line {
                    let y = rect.y + truncate_to_u16(lines.len()) - 1;
                    if line.len() < max {
                        cursor = (rect.x + truncate_to_u16(self.cursor_index_in_line), y);
                    } else {
                        let cont: usize = max - 4;
                        let count: usize = row_count - 1;
                        let mut pos: usize = self.cursor_index_in_line;
                        let ghost first_settled = settle(pos as nat, max as nat, cont as nat, count as nat);
                        if pos > max {
                            pos = pos - max;
                            let mut c: usize = 0;
                            while c < count && pos > cont
                                invariant
                                    c <= count,
                                    first_settled == settle_rest(pos as nat, cont as nat, (count - c) as nat),
                                decreases count - c,
                            {
                                pos = pos - cont;
                                c = c + 1;
                            }
                        }
                        proof {
                            lemma_marker_len();
                        }
                        cursor = (rect.x + 4 + truncate_to_u16(pos), y);
                    }
                }
            } else {
                proof {
                    assert(window_line(m.lines, m.scroll_y as nat, max as nat, k) =~= Seq::<Seq<Seq<char>>>::empty());
                    assert(rows_view(lines@) =~= rows_view(lines@) + Seq::<Seq<Seq<char>>>::empty());
                    assert(strings_view(gutter@) =~= strings_view(gutter@) + Seq::<Seq<char>>::empty());
                }
            }
            i = i + 1;
        }
        (lines, cursor, gutter)
    }
}


/// Joining the lines of a text gives the text back: what `set_text` stores,
/// `text` returns.
pub proof fn lemma_join_split(s: Seq<char>)
    ensures
        join_lines(split_lines(s)) == s,
    decreases s.len(),
{
    if s.len() > 0 {
        let s0 = s.drop_last();
        lemma_join_split(s0);
        lemma_split_nonempty(s0);
        let r = split_lines(s0);
        if s.last() == '\n' {
            assert(r.push(Seq::<char>::empty()).drop_last() =~= r);
            assert(join_lines(r.push(Seq::<char>::empty())) =~= s);
        } else {
            let r2 = r.update(r.len() - 1, r.last().push(s.last()));
            assert(s =~= s0.push(s.last()));
            if r.len() == 1 {
                assert(join_lines(r2) == r2[0]);
                assert(join_lines(r) == r[0]);
                assert(join_lines(r2) =~= s);
            } else {
                assert(r2.drop_last() =~= r.drop_last());
                let x = join_lines(r.drop_last()).push('\n');
                assert(join_lines(r) == x + r.last());
                assert(join_lines(r2) == x + r.last().push(s.last()));
                assert(x + r.last().push(s.last()) =~= (x + r.last()).push(s.last()));
            }
        }
    }
}

/// Whether no line holds a newline.
pub open spec fn no_newlines(lines: Seq<Seq<char>>) -> bool {
    forall|i: int, j: int| 0 <= i < lines.len() && 0 <= j < lines[i].len() ==> lines[i][j] != '\n'
}

proof fn lemma_split_append(a: Seq<char>, y: Seq<char>)
    requires
        forall|j: int| 0 <= j < y.len() ==> y[j] != '\n',
    ensures
        split_lines(a.push('\n') + y) == split_lines(a).push(y),
    decreases y.len(),
{
    lemma_split_nonempty(a);
    if y.len() == 0 {
        assert(a.push('\n') + y =~= a.push('\n'));
        assert((a.push('\n') + y).drop_last() =~= a);
        assert(y =~= Seq::<char>::empty());
        assert(split_lines(a.push('\n')) == split_lines(a).push(Seq::empty()));
    } else {
        let y0 = y.drop_last();
        assert forall|j: int| 0 <= j < y0.len() implies y0[j] != '\n' by {
            assert(y0[j] == y[j]);
        }
        lemma_split_append(a, y0);
        assert((a.push('\n') + y).drop_last() =~= a.push('\n') + y0);
        assert((a.push('\n') + y).last() == y.last());
        assert(y.last() == y[y.len() - 1]);
        assert(y0.push(y.last()) =~= y);
        assert(split_lines(a).push(y0).update(split_lines(a).len() as int, y0.push(y.last())) =~= split_lines(a).push(y));
        let x = a.push('\n') + y;
        assert(x.last() != '\n');
        assert(split_lines(x) == split_lines(x.drop_last()).update(split_lines(x.drop_last()).len() - 1, split_lines(x.drop_last()).last().push(x.last())));
    }
}

/// Splitting joined lines gives them back, when no line holds a newline.
pub proof fn lemma_split_join(lines: Seq<Seq<char>>)
    requires
        lines.len() >= 1,
        no_newlines(lines),
    ensures
        split_lines(join_lines(lines)) == lines,
    decreases lines.len(),
{
    if lines.len() == 1 {
        lemma_split_single(lines[0]);
        assert(seq![lines[0]] =~= lines);
    } else {
        let init = lines.drop_last();
        assert(no_newlines(init));
        lemma_split_join(init);
        assert forall|j: int| 0 <= j < lines.last().len() implies lines.last()[j] != '\n' by {
            assert(lines[lines.len() - 1][j] != '\n');
        }
        lemma_split_append(join_lines(init), lines.last());
        assert(init.push(lines.last()) =~= lines);
    }
}

proof fn lemma_split_single(y: Seq<char>)
    requires
        forall|j: int| 0 <= j < y.len() ==> y[j] != '\n',
    ensures
        split_lines(y) == seq![y],
    decreases y.len(),
{
    if y.len() > 0 {
        let y0 = y.drop_last();
        assert forall|j: int| 0 <= j < y0.len() implies y0[j] != '\n' by {
            assert(y0[j] == y[j]);
        }
        lemma_split_single(y0);
        assert(y.last() == y[y.len() - 1]);
        assert(y0.push(y.last()) =~= y);
        assert(seq![y0].update(0, y0.push(y.last())) =~= seq![y]);
    } else {
        assert(y =~= Seq::<char>::empty());
    }
}

/// The text of display rows, markers left out: the last span of each row.
pub open spec fn row_texts(rows: Seq<Seq<Seq<char>>>) -> Seq<char>
    decreases rows.len(),
{
    if rows.len() == 0 {
        Seq::empty()
    } else {
        row_texts(rows.drop_last()) + rows.last().last()
    }
}

proof fn lemma_row_texts_single(row: Seq<Seq<char>>)
    requires
        row.len() >= 1,
    ensures
        row_texts(seq![row]) == row.last(),
{
    let only: Seq<Seq<Seq<char>>> = seq![row];
    assert(only.drop_last() =~= Seq::<Seq<Seq<char>>>::empty());
    assert(row_texts(only.drop_last()) == Seq::<char>::empty());
    assert(only.last() == row);
    assert(Seq::<char>::empty() + row.last() =~= row.last());
}

proof fn lemma_row_texts_append(a: Seq<Seq<Seq<char>>>, b: Seq<Seq<Seq<char>>>)
    ensures
        row_texts(a + b) == row_texts(a) + row_texts(b),
    decreases b.len(),
{
    if b.len() == 0 {
        assert(a + b =~= a);
    } else {
        lemma_row_texts_append(a, b.drop_last());
        assert((a + b).drop_last() =~= a + b.drop_last());
    }
}

proof fn lemma_rest_text(next: Seq<char>, cont: nat)
    ensures
        row_texts(wrapped_rest(next, cont)) == next,
    decreases next.len(),
{
    if cont > 0 && next.len() >= cont {
        let first: Seq<Seq<Seq<char>>> = seq![seq![continuation_marker_text(), next.take(cont as int)]];
        lemma_rest_text(next.skip(cont as int), cont);
        lemma_row_texts_append(first, wrapped_rest(next.skip(cont as int), cont));
        lemma_row_texts_single(seq![continuation_marker_text(), next.take(cont as int)]);
        assert(next.take(cont as int) + next.skip(cont as int) =~= next);
    } else {
        lemma_row_texts_single(seq![continuation_marker_text(), next]);
    }
}

/// Wrapping keeps a line's text: its rows, markers left out, spell the line.
pub proof fn lemma_wrapped_text(line: Seq<char>, max: nat)
    ensures
        row_texts(wrapped_rows(line, max)) == line,
{
    if line.len() < max {
        lemma_row_texts_single(seq![line]);
    } else {
        let first: Seq<Seq<Seq<char>>> = seq![seq![line.take(max as int)]];
        lemma_rest_text(line.skip(max as int), (max - 4) as nat);
        lemma_row_texts_append(first, wrapped_rest(line.skip(max as int), (max - 4) as nat));
        lemma_row_texts_single(seq![line.take(max as int)]);
        assert(line.take(max as int) + line.skip(max as int) =~= line);
    }
}

/// The gutter has one row beside each display row.
pub proof fn lemma_gutter_matches_rows(lines: Seq<Seq<char>>, scroll: nat, max: nat, count: nat)
    ensures
        window_gutter(lines, scroll, max, count).len() == window_rows(lines, scroll, max, count).len(),
    decreases count,
{
    if count > 0 {
        let k = (count - 1) as nat;
        lemma_gutter_matches_rows(lines, scroll, max, k);
        if scroll + k < lines.len() {
            let line = lines[(scroll + k) as int];
            if line.len() >= max {
                lemma_wrapped_rest_len(line.skip(max as int), (max - 4) as nat);
            }
        }
    }
}

/// Scrolling down ten lines moves the view ten lines down, but not past the
/// number of lines (taken modulo 2^16); nothing else changes.
pub proof fn lemma_scroll_down_ten_moves_ten(m: TextPanelModel)
    ensures
        ({
            let limit = m.lines.len() % 65536;
            after_scroll_down_ten(m) == (TextPanelModel {
                scroll_y: if m.scroll_y + 10 <= limit { (m.scroll_y + 10) as u16 } else { limit as u16 },
                ..m
            })
        }),
{
}

/// Scrolling down by `amount` moves `amount` lines, stopping at the largest
/// 16-bit value; scrolling up moves back `amount` lines, stopping at zero.
pub proof fn lemma_scroll_moves(y: u16, amount: u16)
    ensures
        scrolled_down(y, amount) == if y + amount <= u16::MAX { (y + amount) as int } else { u16::MAX as int },
        scrolled_up(y, amount) == if y >= amount { (y - amount) as int } else { 0 },
{
}

/// Scrolling up undoes scrolling down by the same amount, where the view did
/// not stop at the end.
pub proof fn lemma_scroll_up_undoes_down(y: u16, amount: u16)
    requires
        y + amount <= u16::MAX,
    ensures
        scrolled_up(scrolled_down(y, amount), amount) == y,
{
}

/// The lines of a panel fit in memory: as many lines as a `usize` counts,
/// each no longer than that.
pub open spec fn lines_fit(m: TextPanelModel) -> bool {
    &&& m.lines.len() <= usize::MAX
    &&& forall|i: int| 0 <= i < m.lines.len() ==> #[trigger] m.lines[i].len() <= usize::MAX
}

/// Typing a character puts it at the cursor, between what came before and
/// what came after, and moves the cursor past it; no other line changes.
pub proof fn lemma_typed_char(m: TextPanelModel, c: char, enter: EnterAction)
    requires
        lines_fit(m),
        m.cursor < usize::MAX,
        m.current_line < m.lines.len(),
        m.cursor <= m.lines[m.current_line as int].len(),
    ensures
        ({
            let r = after_key(m, KeyCode::Char(c), enter);
            let cl = m.current_line as int;
            let line = m.lines[cl];
            &&& r.lines.len() == m.lines.len()
            &&& r.lines[cl] == line.take(m.cursor as int) + seq![c] + line.skip(m.cursor as int)
            &&& forall|i: int| 0 <= i < m.lines.len() && i != cl ==> #[trigger] r.lines[i] == m.lines[i]
            &&& r.cursor == m.cursor + 1
            &&& r.current_line == m.current_line
        }),
{
    let line = m.lines[m.current_line as int];
    assert(line.insert(m.cursor as int, c) =~= line.take(m.cursor as int) + seq![c] + line.skip(m.cursor as int));
}

/// Backspace inside a line takes out the character before the cursor and
/// moves the cursor back over it; no other line changes.
pub proof fn lemma_backspace_in_line(m: TextPanelModel, enter: EnterAction)
    requires
        lines_fit(m),
        m.current_line < m.lines.len(),
        0 < m.cursor <= m.lines[m.current_line as int].len(),
    ensures
        ({
            let r = after_key(m, KeyCode::Backspace, enter);
            let cl = m.current_line as int;
            let line = m.lines[cl];
            &&& r.lines.len() == m.lines.len()
            &&& r.lines[cl] == line.take(m.cursor - 1) + line.skip(m.cursor as int)
            &&& forall|i: int| 0 <= i < m.lines.len() && i != cl ==> #[trigger] r.lines[i] == m.lines[i]
            &&& r.cursor == m.cursor - 1
            &&& r.current_line == m.current_line
        }),
{
    let line = m.lines[m.current_line as int];
    assert(line.remove(m.cursor - 1) =~= line.take(m.cursor - 1) + line.skip(m.cursor as int));
}

/// Backspace at the start of a line joins the line onto the one before it,
/// with the cursor where the two meet; the lines after it move up by one.
pub proof fn lemma_backspace_joins_lines(m: TextPanelModel, enter: EnterAction)
    requires
        lines_fit(m),
        0 < m.current_line < m.lines.len(),
        m.cursor == 0,
    ensures
        ({
            let r = after_key(m, KeyCode::Backspace, enter);
            let cl = m.current_line as int;
            &&& r.lines.len() == m.lines.len() - 1
            &&& r.lines[cl - 1] == m.lines[cl - 1] + m.lines[cl]
            &&& forall|i: int| 0 <= i < cl - 1 ==> #[trigger] r.lines[i] == m.lines[i]
            &&& forall|i: int| cl <= i < r.lines.len() ==> #[trigger] r.lines[i] == m.lines[i + 1]
            &&& r.current_line == cl - 1
            &&& r.cursor == m.lines[cl - 1].len()
        }),
{
}

/// Delete inside a line takes out the character at the cursor; the cursor
/// stays; no other line changes.
pub proof fn lemma_delete_in_line(m: TextPanelModel, enter: EnterAction)
    requires
        lines_fit(m),
        m.current_line < m.lines.len(),
        m.cursor < m.lines[m.current_line as int].len(),
    ensures
        ({
            let r = after_key(m, KeyCode::Delete, enter);
            let cl = m.current_line as int;
            let line = m.lines[cl];
            &&& r.lines.len() == m.lines.len()
            &&& r.lines[cl] == line.take(m.cursor as int) + line.skip(m.cursor + 1)
            &&& forall|i: int| 0 <= i < m.lines.len() && i != cl ==> #[trigger] r.lines[i] == m.lines[i]
            &&& r.cursor == m.cursor
            &&& r.current_line == m.current_line
        }),
{
    let line = m.lines[m.current_line as int];
    assert(line.remove(m.cursor as int) =~= line.take(m.cursor as int) + line.skip(m.cursor + 1));
}

/// Delete at the end of a line joins the next line onto it; the cursor
/// stays where the two meet; the lines after them move up by one.
pub proof fn lemma_delete_joins_lines(m: TextPanelModel, enter: EnterAction)
    requires
        lines_fit(m),
        m.current_line + 1 < m.lines.len(),
        m.cursor == m.lines[m.current_line as int].len(),
    ensures
        ({
            let r = after_key(m, KeyCode::Delete, enter);
            let cl = m.current_line as int;
            &&& r.lines.len() == m.lines.len() - 1
            &&& r.lines[cl] == m.lines[cl] + m.lines[cl + 1]
            &&& forall|i: int| 0 <= i < cl ==> #[trigger] r.lines[i] == m.lines[i]
            &&& forall|i: int| cl < i < r.lines.len() ==> #[trigger] r.lines[i] == m.lines[i + 1]
            &&& r.current_line == cl
            &&& r.cursor == m.cursor
        }),
{
}

/// Moving one character on steps over one character of the line; at the end
/// of a line with a line after it, it goes to the start of that line.
/// Moving one character back undoes it inside a line.
pub proof fn lemma_character_moves(m: TextPanelModel)
    requires
        lines_fit(m),
        m.current_line < m.lines.len(),
        m.cursor <= m.lines[m.current_line as int].len(),
    ensures
        ({
            let r = after_next_character(m);
            let len = m.lines[m.current_line as int].len();
            &&& r.lines == m.lines
            &&& m.cursor < len ==> r.cursor == m.cursor + 1 && r.current_line == m.current_line
            &&& m.cursor == len && m.current_line + 1 < m.lines.len() ==> r.cursor == 0 && r.current_line
                == m.current_line + 1
            &&& m.cursor < len ==> after_previous_character(r) == m
        }),
{
}

/// Moving to the next or the previous line keeps the cursor's column where
/// that line is long enough, and puts it at the line's end otherwise.
pub proof fn lemma_line_moves(m: TextPanelModel)
    requires
        lines_fit(m),
    ensures
        m.current_line + 1 < m.lines.len() ==> {
            let r = after_next_line(m);
            let next = m.lines[m.current_line + 1];
            &&& r.lines == m.lines
            &&& r.current_line == m.current_line + 1
            &&& r.cursor == if m.cursor <= next.len() { m.cursor as int } else { next.len() as int }
        },
        0 < m.current_line <= m.lines.len() ==> {
            let r = after_previous_line(m);
            let prev = m.lines[m.current_line - 1];
            &&& r.lines == m.lines
            &&& r.current_line == m.current_line - 1
            &&& r.cursor == if m.cursor <= prev.len() { m.cursor as int } else { prev.len() as int }
        },
{
}

/// Adding text without a newline to a panel extends the current line by
/// exactly that text; nothing else changes.
pub proof fn lemma_append_single_line(m: TextPanelModel, text: Seq<char>)
    requires
        m.current_line < m.lines.len(),
        forall|j: int| 0 <= j < text.len() ==> text[j] != '\n',
    ensures
        text_appended(m, text) == (TextPanelModel {
            lines: m.lines.update(m.current_line as int, m.lines[m.current_line as int] + text),
            ..m
        }),
{
    lemma_split_single(text);
    let pieces = split_lines(text);
    assert(pieces.drop_first() =~= Seq::<Seq<char>>::empty());
    let l1 = m.lines.update(m.current_line as int, m.lines[m.current_line as int] + pieces[0]);
    assert(l1 + pieces.drop_first() =~= l1);
}

} // verus!
