use vstd::prelude::*;

use crate::commands::{
    alt_catch_all, alt_key, catch_all, code, ctrl_alt_key, ctrl_key, key, shift_alt_key,
    shift_catch_all, node_result, resolve, CommandDetails, CommandKeyBuilder, CommandKeyId, Commands, Entry,
};
use crate::text::{EDIT_PANEL_TYPE_ID, INPUT_PANEL_TYPE_ID};
use crate::text_util::str_eq;
use crate::app::{
    add_to_active_split_result, change_type_result, delete_result, neighbour_panel, panel_change_result,
    panel_order, prompt_ok, select_panel_result, split_result, AppState, AppStateModel, MessageChannel,
    MessageModel, StateChangeRequest,
};
use crate::autocomplete::{completions_view, Completion, CompletionModel};
use crate::input::{filled, next_selection, previous_selection, quick_index, with_info, InputPanel};
use crate::keys::{KeyCode, KeyModifiers};
use crate::panels::Panels;
use crate::splits::Direction;
use crate::text::{
    after_key, after_next_character, after_next_line, after_previous_character, after_previous_line,
    after_scroll_down_ten, cursor_outside_message, file_name_prompt, is_editing_key, join_lines, key_fails,
    key_stroke_ok, saved_contents, scrolled_down, scrolled_up, EnterAction, PanelState, SaveStep, TextPanel,
    TextPanelModel,
};
use crate::autocomplete::CompleterKind;

verus! {

/// A command that acts on the active panel.
#[derive(Debug, Clone, Copy, PartialEq, Eq, Structural)]
pub enum PanelCommand {
    /// Edits text for a key, Enter starting a new line.
    HandleKeyStroke,
    OpenFile,
    SaveBuffer,
    ScrollUpOne,
    ScrollDownOne,
    ScrollUpTen,
    ScrollDownTen,
    MoveToPreviousLine,
    MoveToPreviousCharacter,
    MoveToNextLine,
    MoveToNextCharacter,
    /// Edits input for a key, Enter handing the input in.
    InputKeyStroke,
    FillQuickSelect,
    FillCurrentQuickSelect,
    NextQuickSelect,
    PreviousQuickSelect,
}

/// A command that acts on the whole application.
#[derive(Debug, Clone, Copy, PartialEq, Eq, Structural)]
pub enum GlobalAction {
    SplitHorizontal,
    SplitVertical,
    AddPanel,
    DeletePanel,
    ChangePanelType,
    ActivateNextPanel,
    ActivatePreviousPanel,
    StartSelectingPanel,
    SelectPanel,
}

pub const EDIT_COMMAND_INDEX: usize = 0;

pub const INPUT_COMMAND_INDEX: usize = 1;

/// The key of a builder with no action yet.
pub open spec fn id_of(code: KeyCode, bits: u8) -> CommandKeyId {
    CommandKeyId { code, mods: KeyModifiers { bits } }
}

/// A sequence of two keys.
pub open spec fn key_pair(a: CommandKeyId, b: CommandKeyId) -> Seq<CommandKeyId> {
    seq![a, b]
}

/// Adds a one-key command to a trie whose root is a branch without an
/// action: it always goes in, nothing stays below its key, and nothing
/// under another first key changes.
fn insert_single<T: Copy>(c: &mut Commands<T>, k: CommandKeyBuilder<T>, details: CommandDetails, action: T) -> (r: Result<(), String>)
    requires
        old(c).entry(Seq::empty()) == Some(Entry::<T>::Branch(None)),
    ensures
        r is Ok,
        final(c).entry(Seq::empty()) == Some(Entry::<T>::Branch(None)),
        forall|p: Seq<CommandKeyId>| p.len() >= 1 ==> #[trigger] final(c).entry(p) == if p[0] == k.spec_id() {
            if p.len() == 1 { Some(Entry::Command(details, action)) } else { None }
        } else {
            old(c).entry(p)
        },
{
    let ghost id = k.spec_id();
    let b = Commands::<T>::builder().node(k).action(details, action);
    proof {
        let s = b.spec_ids();
        assert(s =~= seq![id]);
        assert(s.take(0) =~= Seq::<CommandKeyId>::empty());
        assert(!crate::commands::blocked(old(c).root_node(), s));
    }
    let r = c.insert(b);
    proof {
        let s = seq![id];
        let last = Some(Entry::Command(details, action));
        assert(final(c).entry(Seq::empty()) == old(c).entry(Seq::empty()));
        assert forall|p: Seq<CommandKeyId>| p.len() >= 1 implies #[trigger] final(c).entry(p) == if p[0] == id {
            if p.len() == 1 { last } else { None }
        } else {
            old(c).entry(p)
        } by {
            assert(final(c).entry(p) == crate::commands::inserted_entry(old(c).root_node(), s, b.spec_actions(), last, p));
            if p[0] == id {
                assert(p.subrange(0, 1) =~= s);
                assert(s.is_prefix_of(p));
            } else {
                assert(p.subrange(0, 1)[0] != s[0]);
                assert(!s.is_prefix_of(p));
            }
        }
    }
    r
}

/// Whether `e` is a command that runs `action`, with the given name and
/// description.
pub open spec fn is_command<T>(e: Option<Entry<T>>, action: T, name: Seq<char>, description: Seq<char>) -> bool {
    e matches Some(Entry::Command(d, a)) && a == action && d.spec_name() == name && d.spec_description() == description
}

/// Whether `e` is a command without a name or description that runs
/// `action`.
pub open spec fn is_plain_command<T>(e: Option<Entry<T>>, action: T) -> bool {
    is_command(e, action, Seq::empty(), Seq::empty())
}

/// What the edit panels' command set holds at the non-empty key sequence
/// `p`: a plain command for each of its keys, and nothing else.
pub open spec fn edit_entry(e: Option<Entry<PanelCommand>>, p: Seq<CommandKeyId>) -> bool {
    let k = p[0];
    if p.len() > 1 {
        e is None
    } else if k == id_of(KeyCode::Null, 0) || k == id_of(KeyCode::Null, 1) {
        is_plain_command(e, PanelCommand::HandleKeyStroke)
    } else if k == id_of(KeyCode::Char('o'), 2) {
        is_command(e, PanelCommand::OpenFile, "Open File"@, "Open a file by typing name in input panel."@)
    } else if k == id_of(KeyCode::Char('s'), 2) {
        is_plain_command(e, PanelCommand::SaveBuffer)
    } else if k == id_of(KeyCode::Char('i'), 4) {
        is_plain_command(e, PanelCommand::ScrollUpOne)
    } else if k == id_of(KeyCode::Char('k'), 4) {
        is_plain_command(e, PanelCommand::ScrollDownOne)
    } else if k == id_of(KeyCode::Char('I'), 5) {
        is_plain_command(e, PanelCommand::ScrollUpTen)
    } else if k == id_of(KeyCode::Char('K'), 5) {
        is_plain_command(e, PanelCommand::ScrollDownTen)
    } else if k == id_of(KeyCode::Char('w'), 4) {
        is_plain_command(e, PanelCommand::MoveToPreviousLine)
    } else if k == id_of(KeyCode::Char('a'), 4) {
        is_plain_command(e, PanelCommand::MoveToPreviousCharacter)
    } else if k == id_of(KeyCode::Char('s'), 4) {
        is_plain_command(e, PanelCommand::MoveToNextLine)
    } else if k == id_of(KeyCode::Char('d'), 4) {
        is_plain_command(e, PanelCommand::MoveToNextCharacter)
    } else {
        e is None
    }
}

/// The edit panels' command set: a root branch and the entries of
/// `edit_entry`.
pub open spec fn edit_set(c: Commands<PanelCommand>) -> bool {
    &&& c.entry(Seq::empty()) == Some(Entry::<PanelCommand>::Branch(None))
    &&& forall|p: Seq<CommandKeyId>| p.len() >= 1 ==> edit_entry(#[trigger] c.entry(p), p)
}

/// The commands of edit panels.
pub fn make_edit_commands() -> (r: Result<Commands<PanelCommand>, String>)
    ensures
        r matches Ok(c) && edit_set(c),
{
    let mut c = Commands::<PanelCommand>::new();
    insert_single(&mut c, catch_all(), CommandDetails::empty(), PanelCommand::HandleKeyStroke)?;
    insert_single(&mut c, shift_catch_all(), CommandDetails::empty(), PanelCommand::HandleKeyStroke)?;
    insert_single(&mut c, ctrl_key('o'), CommandDetails::open_file(), PanelCommand::OpenFile)?;
    insert_single(&mut c, ctrl_key('s'), CommandDetails::empty(), PanelCommand::SaveBuffer)?;
    insert_single(&mut c, alt_key('i'), CommandDetails::empty(), PanelCommand::ScrollUpOne)?;
    insert_single(&mut c, alt_key('k'), CommandDetails::empty(), PanelCommand::ScrollDownOne)?;
    insert_single(&mut c, shift_alt_key('I'), CommandDetails::empty(), PanelCommand::ScrollUpTen)?;
    insert_single(&mut c, shift_alt_key('K'), CommandDetails::empty(), PanelCommand::ScrollDownTen)?;
    insert_single(&mut c, alt_key('w'), CommandDetails::empty(), PanelCommand::MoveToPreviousLine)?;
    insert_single(&mut c, alt_key('a'), CommandDetails::empty(), PanelCommand::MoveToPreviousCharacter)?;
    insert_single(&mut c, alt_key('s'), CommandDetails::empty(), PanelCommand::MoveToNextLine)?;
    insert_single(&mut c, alt_key('d'), CommandDetails::empty(), PanelCommand::MoveToNextCharacter)?;
    Ok(c)
}


/// Adds a two-key command to a trie whose root is a branch without an
/// action and whose first key does not already run a command: it always
/// goes in; the first key's branch keeps what it held, or is made with the
/// first builder's action; nothing stays below the second key; nothing
/// else changes.
fn insert_pair<T: Copy>(
    c: &mut Commands<T>,
    k1: CommandKeyBuilder<T>,
    k2: CommandKeyBuilder<T>,
    details: CommandDetails,
    action: T,
) -> (r: Result<(), String>)
    requires
        old(c).entry(Seq::empty()) == Some(Entry::<T>::Branch(None)),
        !(old(c).entry(seq![k1.spec_id()]) matches Some(Entry::Command(_, _))),
    ensures
        r is Ok,
        final(c).entry(Seq::empty()) == Some(Entry::<T>::Branch(None)),
        forall|p: Seq<CommandKeyId>| p.len() >= 1 ==> #[trigger] final(c).entry(p) == if p[0] != k1.spec_id() {
            old(c).entry(p)
        } else if p.len() == 1 {
            match old(c).entry(p) {
                Some(e) => Some(e),
                None => Some(Entry::Branch(k1.spec_action())),
            }
        } else if p[1] != k2.spec_id() {
            old(c).entry(p)
        } else if p.len() == 2 {
            Some(Entry::Command(details, action))
        } else {
            None
        },
{
    let ghost id1 = k1.spec_id();
    let ghost id2 = k2.spec_id();
    let b = Commands::<T>::builder().node(k1).node(k2).action(details, action);
    let ghost s = key_pair(id1, id2);
    proof {
        assert(b.spec_ids() =~= s);
        assert(s.take(0) =~= Seq::<CommandKeyId>::empty());
        assert(s.take(1) =~= seq![id1]);
        assert(!crate::commands::blocked(old(c).root_node(), s));
    }
    let r = c.insert(b);
    proof {
        let last = Some(Entry::Command(details, action));
        let acts = b.spec_actions();
        assert(acts[0] == k1.spec_action());
        assert(final(c).entry(Seq::empty()) == crate::commands::inserted_entry(old(c).root_node(), s, acts, last, Seq::empty()));
        assert forall|p: Seq<CommandKeyId>| p.len() >= 1 implies #[trigger] final(c).entry(p) == if p[0] != id1 {
            old(c).entry(p)
        } else if p.len() == 1 {
            match old(c).entry(p) {
                Some(e) => Some(e),
                None => Some(Entry::Branch(k1.spec_action())),
            }
        } else if p[1] != id2 {
            old(c).entry(p)
        } else if p.len() == 2 {
            last
        } else {
            None
        } by {
            assert(final(c).entry(p) == crate::commands::inserted_entry(old(c).root_node(), s, acts, last, p));
            if p[0] != id1 {
                assert(p.subrange(0, 1)[0] != s.subrange(0, 1)[0]);
                assert(!s.is_prefix_of(p));
                assert(!p.is_prefix_of(s));
            } else if p.len() == 1 {
                assert(p =~= s.subrange(0, 1));
                assert(p.is_prefix_of(s));
                assert(!s.is_prefix_of(p));
            } else if p[1] != id2 {
                assert(p.subrange(0, 2)[1] != s[1]);
                assert(!s.is_prefix_of(p));
                assert(!p.is_prefix_of(s));
            } else {
                assert(p.subrange(0, 2) =~= s);
                assert(s.is_prefix_of(p));
            }
        }
    }
    r
}

/// What the input panels' command set holds at the non-empty key sequence
/// `p`: a plain command for each of its keys, and nothing else.
pub open spec fn input_entry(e: Option<Entry<PanelCommand>>, p: Seq<CommandKeyId>) -> bool {
    let k = p[0];
    if p.len() > 1 {
        e is None
    } else if k == id_of(KeyCode::Null, 0) || k == id_of(KeyCode::Null, 1) {
        is_plain_command(e, PanelCommand::InputKeyStroke)
    } else if k == id_of(KeyCode::Null, 4) {
        is_plain_command(e, PanelCommand::FillQuickSelect)
    } else if k == id_of(KeyCode::Tab, 0) {
        is_plain_command(e, PanelCommand::FillCurrentQuickSelect)
    } else if k == id_of(KeyCode::Char('='), 4) {
        is_plain_command(e, PanelCommand::NextQuickSelect)
    } else if k == id_of(KeyCode::Char('-'), 4) {
        is_plain_command(e, PanelCommand::PreviousQuickSelect)
    } else {
        e is None
    }
}

/// The input panels' command set: a root branch and the entries of
/// `input_entry`.
pub open spec fn input_set(c: Commands<PanelCommand>) -> bool {
    &&& c.entry(Seq::empty()) == Some(Entry::<PanelCommand>::Branch(None))
    &&& forall|p: Seq<CommandKeyId>| p.len() >= 1 ==> input_entry(#[trigger] c.entry(p), p)
}

/// The commands of input panels.
pub fn make_input_commands() -> (r: Result<Commands<PanelCommand>, String>)
    ensures
        r matches Ok(c) && input_set(c),
{
    let mut c = Commands::<PanelCommand>::new();
    insert_single(&mut c, catch_all(), CommandDetails::empty(), PanelCommand::InputKeyStroke)?;
    insert_single(&mut c, shift_catch_all(), CommandDetails::empty(), PanelCommand::InputKeyStroke)?;
    insert_single(&mut c, alt_catch_all(), CommandDetails::empty(), PanelCommand::FillQuickSelect)?;
    insert_single(&mut c, code(KeyCode::Tab), CommandDetails::empty(), PanelCommand::FillCurrentQuickSelect)?;
    insert_single(&mut c, alt_key('='), CommandDetails::empty(), PanelCommand::NextQuickSelect)?;
    insert_single(&mut c, alt_key('-'), CommandDetails::empty(), PanelCommand::PreviousQuickSelect)?;
    Ok(c)
}

/// The entries of the messages panels' command set: none.
pub open spec fn messages_set(c: Commands<PanelCommand>) -> bool {
    forall|p: Seq<CommandKeyId>| #[trigger] c.entry(p) == if p.len() == 0 {
        Some(Entry::<PanelCommand>::Branch(None))
    } else {
        None
    }
}

/// The commands of messages panels: none.
pub fn make_messages_commands() -> (r: Result<Commands<PanelCommand>, String>)
    ensures
        r matches Ok(c) && messages_set(c),
{
    Ok(Commands::<PanelCommand>::new())
}

/// What the global command set holds at the non-empty key sequence `p`:
/// under Control-P a branch to the split, add, remove and retype commands;
/// Control-Alt-L and -J; under Control-A, which starts the selection, a
/// branch whose catch-all key selects a panel; nothing else.
pub open spec fn global_entry(e: Option<Entry<GlobalAction>>, p: Seq<CommandKeyId>) -> bool {
    let k = p[0];
    if k == id_of(KeyCode::Char('p'), 2) {
        if p.len() == 1 {
            e == Some(Entry::<GlobalAction>::Branch(None))
        } else if p.len() > 2 {
            e is None
        } else if p[1] == id_of(KeyCode::Char('h'), 0) {
            is_command(e, GlobalAction::SplitHorizontal, "Split Horizontal"@,
                "Split active panel into two panels that are horizontally aligned."@)
        } else if p[1] == id_of(KeyCode::Char('v'), 0) {
            is_command(e, GlobalAction::SplitVertical, "Split Vertical"@,
                "Split active panel into two panels that are vertically aligned."@)
        } else if p[1] == id_of(KeyCode::Char('n'), 0) {
            is_command(e, GlobalAction::AddPanel, "Add Panel"@, "Add panel to active split."@)
        } else if p[1] == id_of(KeyCode::Char('d'), 0) {
            is_command(e, GlobalAction::DeletePanel, "Remove"@, "Remove active panel."@)
        } else if p[1] == id_of(KeyCode::Char('t'), 0) {
            is_command(e, GlobalAction::ChangePanelType, "Change Panel Type"@, "Change type of active panel"@)
        } else {
            e is None
        }
    } else if k == id_of(KeyCode::Char('l'), 6) {
        if p.len() == 1 {
            is_command(e, GlobalAction::ActivateNextPanel, "Next Panel"@, "Activate next panel"@)
        } else {
            e is None
        }
    } else if k == id_of(KeyCode::Char('j'), 6) {
        if p.len() == 1 {
            is_command(e, GlobalAction::ActivatePreviousPanel, "Previous Panel"@, "Activate previous panel"@)
        } else {
            e is None
        }
    } else if k == id_of(KeyCode::Char('a'), 2) {
        if p.len() == 1 {
            e == Some(Entry::Branch(Some(GlobalAction::StartSelectingPanel)))
        } else if p.len() == 2 && p[1] == id_of(KeyCode::Null, 0) {
            is_command(e, GlobalAction::SelectPanel, "Activate Panel"@,
                "Activate a panel by selecting its ID. The IDs will be displayed next to panel titles after first key."@)
        } else {
            e is None
        }
    } else {
        e is None
    }
}

/// The global command set: a root branch and the entries of
/// `global_entry`.
pub open spec fn global_set(c: Commands<GlobalAction>) -> bool {
    &&& c.entry(Seq::empty()) == Some(Entry::<GlobalAction>::Branch(None))
    &&& forall|p: Seq<CommandKeyId>| p.len() >= 1 ==> global_entry(#[trigger] c.entry(p), p)
}

/// The commands that act on the whole application: Control-P then a key to
/// split, add, remove or retype panels; Control-Alt-L and -J to move between
/// panels; Control-A (which starts the selection) then a panel's id to
/// select it.
pub fn global_commands() -> (r: Result<Commands<GlobalAction>, String>)
    ensures
        r matches Ok(c) && global_set(c),
{
    let mut c = Commands::<GlobalAction>::new();
    proof {
        assert(c.entry(Seq::empty()) == Some(Entry::<GlobalAction>::Branch(None)));
        assert(c.entry(seq![id_of(KeyCode::Char('p'), 2)]) is None);
        assert(c.entry(seq![id_of(KeyCode::Char('a'), 2)]) is None);
    }
    // Panel creation and deletion
    insert_pair(&mut c, ctrl_key('p'), key('h'), CommandDetails::split_horizontal(), GlobalAction::SplitHorizontal)?;
    insert_pair(&mut c, ctrl_key('p'), key('v'), CommandDetails::split_vertical(), GlobalAction::SplitVertical)?;
    insert_pair(&mut c, ctrl_key('p'), key('n'), CommandDetails::add_panel(), GlobalAction::AddPanel)?;
    insert_pair(&mut c, ctrl_key('p'), key('d'), CommandDetails::remove_panel(), GlobalAction::DeletePanel)?;
    insert_pair(&mut c, ctrl_key('p'), key('t'), CommandDetails::change_panel_type(), GlobalAction::ChangePanelType)?;
    // Panel navigation
    insert_single(&mut c, ctrl_alt_key('l'), CommandDetails::activate_next_panel(), GlobalAction::ActivateNextPanel)?;
    insert_single(&mut c, ctrl_alt_key('j'), CommandDetails::activate_previous_panel(), GlobalAction::ActivatePreviousPanel)?;
    // Panel selection
    insert_pair(
        &mut c,
        ctrl_key('a').action(GlobalAction::StartSelectingPanel),
        catch_all(),
        CommandDetails::select_panel(),
        GlobalAction::SelectPanel,
    )?;
    Ok(c)
}


/// What running a panel command gives.
pub struct PanelOutcome {
    /// Whether the command handled the key; if not, the global commands get it.
    pub handled: bool,
    /// The changes that the panel asks of the application.
    pub changes: Vec<StateChangeRequest>,
    /// Text to be written to a file, as (path, contents).
    pub write: Option<(String, String)>,
}

pub open spec fn options_view(options: Option<&Vec<Completion>>) -> Option<Seq<CompletionModel>> {
    match options {
        Some(o) => Some(completions_view(o@)),
        None => None,
    }
}

/// The inputs on which a panel command runs without overflow.
pub open spec fn panel_command_ok(cmd: PanelCommand, m: TextPanelModel, code: KeyCode, o: Option<Seq<CompletionModel>>) -> bool {
    match cmd {
        PanelCommand::HandleKeyStroke => key_stroke_ok(m, code, EnterAction::Newline),
        PanelCommand::InputKeyStroke => key_stroke_ok(m, code, EnterAction::Submit),
        PanelCommand::MoveToNextCharacter => m.current_line < m.lines.len() ==> m.cursor < usize::MAX,
        PanelCommand::MoveToNextLine => m.current_line < usize::MAX,
        PanelCommand::FillQuickSelect => o matches Some(opts) ==> (quick_index(code) matches Some(i) ==> (0 <= i
            < opts.len() ==> m.cursor + opts[i].remaining.len() <= usize::MAX)),
        PanelCommand::FillCurrentQuickSelect => o matches Some(opts) ==> (m.selection < opts.len() ==> m.cursor
            + opts[m.selection as int].remaining.len() <= usize::MAX),
        PanelCommand::NextQuickSelect => o is Some ==> m.selection < usize::MAX,
        PanelCommand::PreviousQuickSelect => o matches Some(opts) ==> m.selection > 0 || opts.len() > 0,
        _ => true,
    }
}

/// The panel after a command.
pub open spec fn panel_after(cmd: PanelCommand, m: TextPanelModel, code: KeyCode, o: Option<Seq<CompletionModel>>) -> TextPanelModel {
    match cmd {
        PanelCommand::HandleKeyStroke => after_key(m, code, EnterAction::Newline),
        PanelCommand::InputKeyStroke => after_key(m, code, EnterAction::Submit),
        PanelCommand::OpenFile => TextPanelModel { state: PanelState::WaitingToOpen, ..m },
        PanelCommand::SaveBuffer => if m.file_path is None {
            TextPanelModel { state: PanelState::WaitingToSave, ..m }
        } else {
            m
        },
        PanelCommand::ScrollUpOne => TextPanelModel { scroll_y: scrolled_up(m.scroll_y, 1), ..m },
        PanelCommand::ScrollDownOne => TextPanelModel { scroll_y: scrolled_down(m.scroll_y, 1), ..m },
        PanelCommand::ScrollUpTen => TextPanelModel { scroll_y: scrolled_up(m.scroll_y, 10), ..m },
        PanelCommand::ScrollDownTen => after_scroll_down_ten(m),
        PanelCommand::MoveToPreviousLine => after_previous_line(m),
        PanelCommand::MoveToPreviousCharacter => after_previous_character(m),
        PanelCommand::MoveToNextLine => after_next_line(m),
        PanelCommand::MoveToNextCharacter => after_next_character(m),
        PanelCommand::FillQuickSelect => match (o, quick_index(code)) {
            (Some(opts), Some(i)) => if i < opts.len() {
                filled(m, opts[i])
            } else {
                m
            },
            _ => m,
        },
        PanelCommand::FillCurrentQuickSelect => match o {
            Some(opts) => if m.selection < opts.len() {
                filled(m, opts[m.selection as int])
            } else {
                TextPanelModel { selection: 0, ..m }
            },
            None => m,
        },
        PanelCommand::NextQuickSelect => match o {
            Some(opts) => TextPanelModel { selection: next_selection(m.selection, opts.len()), ..m },
            None => m,
        },
        PanelCommand::PreviousQuickSelect => match o {
            Some(opts) => TextPanelModel { selection: previous_selection(m.selection, opts.len()), ..m },
            None => m,
        },
    }
}

/// The application state after a panel command.
pub open spec fn state_after_command(cmd: PanelCommand, a: AppStateModel, m: TextPanelModel, code: KeyCode) -> AppStateModel {
    match cmd {
        PanelCommand::HandleKeyStroke | PanelCommand::InputKeyStroke => if key_fails(m, code) {
            AppStateModel {
                messages: a.messages.push(MessageModel { channel: MessageChannel::ERROR, text: cursor_outside_message() }),
                ..a
            }
        } else {
            a
        },
        PanelCommand::FillQuickSelect => with_info(a, "Filling"@),
        PanelCommand::FillCurrentQuickSelect => with_info(a, "Filling current"@),
        _ => a,
    }
}

/// Whether a panel command handles the key.
pub open spec fn command_handled(cmd: PanelCommand, code: KeyCode) -> bool {
    match cmd {
        PanelCommand::HandleKeyStroke | PanelCommand::InputKeyStroke => is_editing_key(code),
        PanelCommand::FillQuickSelect | PanelCommand::FillCurrentQuickSelect | PanelCommand::NextQuickSelect
        | PanelCommand::PreviousQuickSelect => false,
        _ => true,
    }
}

/// Whether `changes` ask for a file name, with file completion.
pub open spec fn asks_file_name(changes: Seq<StateChangeRequest>) -> bool {
    changes.len() == 1 && (changes[0] matches StateChangeRequest::Input(p, c) && p@ == file_name_prompt() && c
        == Some(CompleterKind::Files))
}

/// Whether a key stroke can be handled without overflow or indexing past
/// the text; see `key_stroke_ok`.
fn key_stroke_allowed(panel: &TextPanel, code: KeyCode, enter: EnterAction) -> (r: bool)
    ensures
        r == key_stroke_ok(panel@, code, enter),
{
    let line_count = panel.line_count();
    let current = panel.current_line();
    let cursor = panel.cursor_index_in_line();
    match code {
        KeyCode::Backspace => cursor != 0 || current == 0 || current < line_count,
        KeyCode::Delete => {
            match panel.line_len(current) {
                Some(len) => cursor != len || current + 1 < line_count,
                None => true,
            }
        },
        KeyCode::Enter => match enter {
            EnterAction::Newline => current < usize::MAX,
            EnterAction::Submit => true,
        },
        KeyCode::Char(_) => match panel.line_len(current) {
            Some(len) => cursor <= len,
            None => cursor < usize::MAX,
        },
        _ => true,
    }
}

/// The number of characters of a completion's rest.
fn remaining_count(c: &Completion) -> (n: usize)
    ensures
        n == c@.remaining.len(),
{
    crate::text_util::str_chars(c.remaining().as_str()).len()
}

/// Whether a panel command can run on `panel`; see `panel_command_ok`.
pub fn panel_command_allowed(cmd: PanelCommand, panel: &TextPanel, code: KeyCode, options: Option<&Vec<Completion>>) -> (r: bool)
    ensures
        r == panel_command_ok(cmd, panel@, code, options_view(options)),
{
    let m_cursor = panel.cursor_index_in_line();
    match cmd {
        PanelCommand::HandleKeyStroke => key_stroke_allowed(panel, code, EnterAction::Newline),
        PanelCommand::InputKeyStroke => key_stroke_allowed(panel, code, EnterAction::Submit),
        PanelCommand::MoveToNextCharacter => panel.current_line() >= panel.line_count() || m_cursor < usize::MAX,
        PanelCommand::MoveToNextLine => panel.current_line() < usize::MAX,
        PanelCommand::FillQuickSelect => match options {
            None => true,
            Some(o) => match code {
                KeyCode::Char(c) => {
                    if '1' <= c && c <= '8' {
                        let i = (c as u32 - 49) as usize;
                        if i < o.len() {
                            let n = remaining_count(&o[i]);
                            m_cursor <= usize::MAX - n
                        } else {
                            true
                        }
                    } else {
                        true
                    }
                },
                _ => true,
            },
        },
        PanelCommand::FillCurrentQuickSelect => match options {
            None => true,
            Some(o) => {
                let sel = panel.selection();
                if sel < o.len() {
                    let n = remaining_count(&o[sel]);
                    m_cursor <= usize::MAX - n
                } else {
                    true
                }
            },
        },
        PanelCommand::NextQuickSelect => match options {
            None => true,
            Some(_) => panel.selection() < usize::MAX,
        },
        PanelCommand::PreviousQuickSelect => match options {
            None => true,
            Some(o) => panel.selection() > 0 || o.len() > 0,
        },
        _ => true,
    }
}

/// Runs a panel command on `panel`; `options` are the completions for the
/// panel's text when the input request has a completer.
pub fn run_panel_command(
    cmd: PanelCommand,
    panel: &mut TextPanel,
    code: KeyCode,
    state: &mut AppState,
    options: Option<&Vec<Completion>>,
) -> (r: PanelOutcome)
    requires
        panel_command_ok(cmd, old(panel)@, code, options_view(options)),
    ensures
        final(panel)@ == panel_after(cmd, old(panel)@, code, options_view(options)),
        final(state)@ == state_after_command(cmd, old(state)@, old(panel)@, code),
        r.handled == command_handled(cmd, code),
        match cmd {
            PanelCommand::InputKeyStroke => if code is Enter {
                r.changes@.len() == 1 && (r.changes@[0] matches StateChangeRequest::InputComplete(t) && t@
                    == join_lines(old(panel)@.lines))
            } else {
                r.changes@.len() == 0
            },
            PanelCommand::OpenFile => asks_file_name(r.changes@),
            PanelCommand::SaveBuffer => if old(panel)@.file_path is None {
                asks_file_name(r.changes@)
            } else {
                r.changes@.len() == 0
            },
            _ => r.changes@.len() == 0,
        },
        match (cmd, old(panel)@.file_path) {
            (PanelCommand::SaveBuffer, Some(path)) => r.write matches Some(w) && w.0@ == path && w.1@
                == saved_contents(old(panel)@.lines),
            _ => r.write is None,
        },
{
    let mut write: Option<(String, String)> = None;
    let (handled, changes) = match cmd {
        PanelCommand::HandleKeyStroke => panel.handle_key_stroke(code, state),
        PanelCommand::InputKeyStroke => InputPanel::handle_key_stroke(panel, code, state),
        PanelCommand::OpenFile => panel.open_file(code, state),
        PanelCommand::SaveBuffer => match panel.save_buffer(code, state) {
            (handled, SaveStep::AskForPath(changes)) => (handled, changes),
            (handled, SaveStep::Write { path, contents }) => {
                write = Some((path, contents));
                (handled, Vec::new())
            },
        },
        PanelCommand::ScrollUpOne => panel.scroll_up_one(code, state),
        PanelCommand::ScrollDownOne => panel.scroll_down_one(code, state),
        PanelCommand::ScrollUpTen => panel.scroll_up_ten(code, state),
        PanelCommand::ScrollDownTen => panel.scroll_down_ten(code, state),
        PanelCommand::MoveToPreviousLine => panel.move_to_previous_line(code, state),
        PanelCommand::MoveToPreviousCharacter => panel.move_to_previous_character(code, state),
        PanelCommand::MoveToNextLine => panel.move_to_next_line(code, state),
        PanelCommand::MoveToNextCharacter => panel.move_to_next_character(code, state),
        PanelCommand::FillQuickSelect => InputPanel::fill_quick_select(panel, code, state, options),
        PanelCommand::FillCurrentQuickSelect => InputPanel::fill_current_quick_select(panel, code, state, options),
        PanelCommand::NextQuickSelect => InputPanel::next_quick_select(panel, code, options),
        PanelCommand::PreviousQuickSelect => InputPanel::previous_quick_select(panel, code, options),
    };
    PanelOutcome { handled, changes, write }
}

/// The inputs on which a global action runs: walking the panels must be
/// able to finish, and retyping needs the prompt panel.
pub open spec fn global_action_ok(g: GlobalAction, a: AppStateModel, store: Seq<TextPanelModel>) -> bool {
    match g {
        GlobalAction::DeletePanel | GlobalAction::ActivateNextPanel | GlobalAction::ActivatePreviousPanel => !(panel_order(
            a,
            store,
        ) is Stuck),
        GlobalAction::ChangePanelType => prompt_ok(a, store),
        _ => true,
    }
}

/// The state and panel store after a global action.
pub open spec fn global_result(g: GlobalAction, a: AppStateModel, store: Seq<TextPanelModel>, code: KeyCode) -> (AppStateModel, Seq<TextPanelModel>) {
    match g {
        GlobalAction::SplitHorizontal => split_result(a, store, Direction::Vertical),
        GlobalAction::SplitVertical => split_result(a, store, Direction::Horizontal),
        GlobalAction::AddPanel => add_to_active_split_result(a, store),
        GlobalAction::DeletePanel => delete_result(a, store),
        GlobalAction::ChangePanelType => change_type_result(a, store),
        GlobalAction::ActivateNextPanel => (panel_change_result(a, neighbour_panel(a, store, true)), store),
        GlobalAction::ActivatePreviousPanel => (panel_change_result(a, neighbour_panel(a, store, false)), store),
        GlobalAction::StartSelectingPanel => (AppStateModel { selecting_panel: true, ..a }, store),
        GlobalAction::SelectPanel => (select_panel_result(a, code), store),
    }
}

/// Runs a global action.
pub fn run_global_action(g: GlobalAction, state: &mut AppState, code: KeyCode, panels: &mut Panels)
    requires
        global_action_ok(g, old(state)@, old(panels)@),
    ensures
        (final(state)@, final(panels)@) == global_result(g, old(state)@, old(panels)@, code),
{
    match g {
        GlobalAction::SplitHorizontal => state.split_current_panel_horizontal(code, panels),
        GlobalAction::SplitVertical => state.split_current_panel_vertical(code, panels),
        GlobalAction::AddPanel => state.add_panel_to_active_split(code, panels),
        GlobalAction::DeletePanel => state.delete_active_panel(code, panels),
        GlobalAction::ChangePanelType => state.change_active_panel_type(code, panels),
        GlobalAction::ActivateNextPanel => state.activate_next_panel(code, panels),
        GlobalAction::ActivatePreviousPanel => state.activate_previous_panel(code, panels),
        GlobalAction::StartSelectingPanel => state.start_selecting_panel(code, panels),
        GlobalAction::SelectPanel => state.select_panel(code, panels),
    }
}


/// What a trie gives for the keys pressed: whether they end a command, and
/// the action to run.
pub open spec fn trie_lookup<T>(c: Commands<T>, p: Seq<CommandKeyId>) -> Option<(bool, Option<T>)> {
    match resolve(c.root_node(), p) {
        Some(n) => Some(node_result(n)),
        None => None,
    }
}

/// Routes key presses to the command set of the active panel, and to the
/// global commands when the panel does not handle them.
pub struct Manager {
    state_commands: Commands<GlobalAction>,
    command_stack: Vec<usize>,
    commands: Vec<Commands<PanelCommand>>,
    progress: Vec<CommandKeyId>,
}

/// The manager as a value.
pub struct ManagerModel {
    /// The global commands.
    pub global: Commands<GlobalAction>,
    /// The indices of the command sets of panels, the active one last.
    pub stack: Seq<usize>,
    /// The command sets of panels.
    pub sets: Seq<Commands<PanelCommand>>,
    /// The keys pressed so far in a sequence.
    pub progress: Seq<CommandKeyId>,
}

impl View for Manager {
    type V = ManagerModel;

    closed spec fn view(&self) -> ManagerModel {
        ManagerModel {
            global: self.state_commands,
            stack: self.command_stack@,
            sets: self.commands@,
            progress: self.progress@,
        }
    }
}

/// What a key press does once it is added to the keys pressed so far.
pub struct Step {
    /// The command that the active panel's command set runs, if any.
    pub panel_command: Option<PanelCommand>,
    /// What the global commands give for the keys.
    pub global: Option<(bool, Option<GlobalAction>)>,
}

/// What the active panel's command set gives for the keys `p`.
pub open spec fn panel_lookup(m: ManagerModel, p: Seq<CommandKeyId>) -> Option<(bool, Option<PanelCommand>)> {
    if m.stack.len() > 0 && m.stack.last() < m.sets.len() {
        trie_lookup(m.sets[m.stack.last() as int], p)
    } else {
        None
    }
}

/// The command set index for a panel type, if the type has one.
pub open spec fn command_index_for(type_id: Seq<char>) -> Option<usize> {
    if type_id == EDIT_PANEL_TYPE_ID@ {
        Some(EDIT_COMMAND_INDEX)
    } else if type_id == INPUT_PANEL_TYPE_ID@ {
        Some(INPUT_COMMAND_INDEX)
    } else {
        None
    }
}

impl Manager {
    /// The default manager: the global commands, the command sets of edit,
    /// input and messages panels, no active set and no keys pressed.
    pub fn default() -> (m: Self)
        ensures
            m@.stack.len() == 0,
            m@.progress.len() == 0,
            m@.sets.len() == 3,
            global_set(m@.global),
            edit_set(m@.sets[EDIT_COMMAND_INDEX as int]),
            input_set(m@.sets[INPUT_COMMAND_INDEX as int]),
            messages_set(m@.sets[2]),
    {
        let state_commands = match global_commands() {
            Ok(c) => c,
            Err(_) => Commands::new(),
        };
        let mut commands: Vec<Commands<PanelCommand>> = Vec::new();
        commands.push(
            match make_edit_commands() {
                Ok(c) => c,
                Err(_) => Commands::new(),
            },
        );
        commands.push(
            match make_input_commands() {
                Ok(c) => c,
                Err(_) => Commands::new(),
            },
        );
        commands.push(
            match make_messages_commands() {
                Ok(c) => c,
                Err(_) => Commands::new(),
            },
        );
        Manager { state_commands, command_stack: Vec::new(), commands, progress: Vec::new() }
    }

    /// Adds a key press to the keys pressed so far and looks the keys up in
    /// the active panel's command set and in the global commands. When the
    /// panel's set finds them and they end a command there, the keys start
    /// over.
    pub fn advance(&mut self, by: CommandKeyId) -> (r: Step)
        ensures
            ({
                let p = old(self)@.progress.push(by);
                &&& r.global == trie_lookup(old(self)@.global, p)
                &&& match panel_lookup(old(self)@, p) {
                    None => r.panel_command is None && final(self)@ == ManagerModel { progress: p, ..old(self)@ },
                    Some((end, action)) => r.panel_command == action && final(self)@ == ManagerModel {
                        progress: if end {
                            Seq::empty()
                        } else {
                            p
                        },
                        ..old(self)@
                    },
                }
            }),
    {
        self.progress.push(by);
        let global = self.state_commands.get(&self.progress);
        let panel_result = if self.command_stack.len() > 0 {
            let top = self.command_stack[self.command_stack.len() - 1];
            if top < self.commands.len() {
                self.commands[top].get(&self.progress)
            } else {
                None
            }
        } else {
            None
        };
        match panel_result {
            None => Step { panel_command: None, global },
            Some((end, action)) => {
                if end {
                    self.progress.clear();
                }
                Step { panel_command: action, global }
            },
        }
    }

    /// Finishes a key press that the panel did not handle (`fallthrough`):
    /// the global commands' action for it, the keys starting over when they
    /// end a global command.
    pub fn finish_advance(&mut self, global: Option<(bool, Option<GlobalAction>)>, fallthrough: bool) -> (r: Option<GlobalAction>)
        ensures
            match (fallthrough, global) {
                (true, Some((end, action))) => r == action && final(self)@ == ManagerModel {
                    progress: if end {
                        Seq::empty()
                    } else {
                        old(self)@.progress
                    },
                    ..old(self)@
                },
                _ => r is None && final(self)@ == old(self)@,
            },
    {
        if fallthrough {
            match global {
                None => None,
                Some((end, action)) => {
                    if end {
                        self.progress.clear();
                    }
                    action
                },
            }
        } else {
            None
        }
    }

    /// Makes the command set of a panel type active, for types that have one.
    pub fn push_commands_for_panel(&mut self, type_id: &str)
        ensures
            final(self)@ == match command_index_for(type_id@) {
                Some(i) => ManagerModel { stack: old(self)@.stack.push(i), ..old(self)@ },
                None => old(self)@,
            },
    {
        proof {
            crate::text::lemma_type_ids_distinct();
        }
        if str_eq(type_id, EDIT_PANEL_TYPE_ID) {
            self.command_stack.push(EDIT_COMMAND_INDEX);
        } else if str_eq(type_id, INPUT_PANEL_TYPE_ID) {
            self.command_stack.push(INPUT_COMMAND_INDEX);
        }
    }

    /// Replaces the active command set with that of a panel type; without an
    /// active set nothing changes. For a type without a set, the active set
    /// is only removed.
    pub fn replace_top_with_panel(&mut self, type_id: &str)
        ensures
            final(self)@ == if old(self)@.stack.len() == 0 {
                old(self)@
            } else {
                let popped = old(self)@.stack.drop_last();
                match command_index_for(type_id@) {
                    Some(i) => ManagerModel { stack: popped.push(i), ..old(self)@ },
                    None => ManagerModel { stack: popped, ..old(self)@ },
                }
            },
    {
        match self.command_stack.pop() {
            None => {},
            Some(_) => self.push_commands_for_panel(type_id),
        }
    }

    /// How many command sets are stacked; the active one is the last.
    pub fn stack_len(&self) -> (r: usize)
        ensures
            r == self@.stack.len(),
    {
        self.command_stack.len()
    }

    /// The keys pressed so far in a sequence.
    pub fn progress(&self) -> (r: &Vec<CommandKeyId>)
        ensures
            r@ == self@.progress,
    {
        &self.progress
    }

    /// Forgets the keys pressed so far.
    pub fn reset(&mut self)
        ensures
            final(self)@ == (ManagerModel { progress: Seq::empty(), ..old(self)@ }),
    {
        self.progress.clear();
    }
}

} // verus!
