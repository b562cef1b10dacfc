use vstd::prelude::*;

use crate::autocomplete::CompleterKind;
use crate::keys::KeyCode;
use crate::panels::{lemma_pushed, pushed, PanelFactory, Panels};
use crate::text::{input_request_for, FileRequest, FileRequestModel, NULL_PANEL_TYPE_ID, EDIT_PANEL_TYPE_ID, MESSAGE_PANEL_TYPE_ID};
use crate::splits::{Direction, PanelSplit, PanelSplitModel, UserSplits};
use crate::text::{fresh_panel, lemma_type_ids_distinct, PanelKind, TextPanelModel};
use crate::text_util::push_char;

verus! {

/// The kind of a message shown to the user.
#[derive(Debug, Clone, Copy, PartialEq, Eq, Structural, Hash)]
pub enum MessageChannel {
    ERROR,
    WARNING,
    INFO,
}

/// A message for the messages panel.
#[derive(Debug, Clone, PartialEq, Eq)]
pub struct Message {
    channel: MessageChannel,
    text: String,
}

/// A message as a value.
pub struct MessageModel {
    pub channel: MessageChannel,
    pub text: Seq<char>,
}

impl View for Message {
    type V = MessageModel;

    closed spec fn view(&self) -> MessageModel {
        MessageModel { channel: self.channel, text: self.text@ }
    }
}

impl Message {
    pub fn error(text: &str) -> (m: Message)
        ensures
            m@ == (MessageModel { channel: MessageChannel::ERROR, text: text@ }),
    {
        Message { channel: MessageChannel::ERROR, text: text.to_owned() }
    }

    pub fn info(text: &str) -> (m: Message)
        ensures
            m@ == (MessageModel { channel: MessageChannel::INFO, text: text@ }),
    {
        Message { channel: MessageChannel::INFO, text: text.to_owned() }
    }

    pub fn channel(&self) -> (c: MessageChannel)
        ensures
            c == self@.channel,
    {
        self.channel
    }

    pub fn text(&self) -> (t: &String)
        ensures
            t@ == self@.text,
    {
        &self.text
    }
}

/// What the application is waiting for.
#[derive(Debug, Clone, Copy, PartialEq, Eq, Structural, Hash)]
pub enum State {
    Normal,
    /// Waiting for the name of the new type of the layout panel at this index.
    WaitingPanelType(usize),
}

/// A request that a panel makes of the application.
pub enum StateChangeRequest {
    /// Ask the user for input, showing the prompt and offering completions.
    Input(String, Option<CompleterKind>),
    /// The user finished typing input.
    InputComplete(String),
    Message(Message),
}

impl StateChangeRequest {
    pub fn input_request(prompt: String) -> (r: StateChangeRequest)
        ensures
            r matches StateChangeRequest::Input(p, c) && p@ == prompt@ && c is None,
    {
        StateChangeRequest::Input(prompt, None)
    }

    pub fn input_request_with_completer(prompt: String, completer: CompleterKind) -> (r: StateChangeRequest)
        ensures
            r matches StateChangeRequest::Input(p, c) && p@ == prompt@ && c == Some(completer),
    {
        StateChangeRequest::Input(prompt, Some(completer))
    }

    pub fn input_complete(text: String) -> (r: StateChangeRequest)
        ensures
            r matches StateChangeRequest::InputComplete(t) && t@ == text@,
    {
        StateChangeRequest::InputComplete(text)
    }

    pub fn error(message: &str) -> (r: StateChangeRequest)
        ensures
            r matches StateChangeRequest::Message(m) && m@ == (MessageModel {
                channel: MessageChannel::ERROR,
                text: message@,
            }),
    {
        StateChangeRequest::Message(Message::error(message))
    }

    pub fn info(message: &str) -> (r: StateChangeRequest)
        ensures
            r matches StateChangeRequest::Message(m) && m@ == (MessageModel {
                channel: MessageChannel::INFO,
                text: message@,
            }),
    {
        StateChangeRequest::Message(Message::info(message))
    }
}

/// The requester of input that the application itself made, rather than a
/// panel.
pub const TOP_REQUESTOR_ID: usize = usize::MAX;

/// A pending request for input from the user.
pub struct InputRequest {
    prompt: String,
    auto_completer: Option<CompleterKind>,
    requestor_id: usize,
}

/// A pending request for input, as a value.
pub struct InputRequestModel {
    pub prompt: Seq<char>,
    pub completer: Option<CompleterKind>,
    pub requestor_id: usize,
}

impl View for InputRequest {
    type V = InputRequestModel;

    closed spec fn view(&self) -> InputRequestModel {
        InputRequestModel {
            prompt: self.prompt@,
            completer: self.auto_completer,
            requestor_id: self.requestor_id,
        }
    }
}

impl InputRequest {
    pub fn new(prompt: String, completer: Option<CompleterKind>, requestor_id: usize) -> (r: Self)
        ensures
            r@ == (InputRequestModel { prompt: prompt@, completer, requestor_id }),
    {
        InputRequest { prompt, auto_completer: completer, requestor_id }
    }

    pub fn prompt(&self) -> (p: &String)
        ensures
            p@ == self@.prompt,
    {
        &self.prompt
    }

    pub fn completer(&self) -> (c: Option<CompleterKind>)
        ensures
            c == self@.completer,
    {
        self.auto_completer
    }

    pub fn requestor_id(&self) -> (r: usize)
        ensures
            r == self@.requestor_id,
    {
        self.requestor_id
    }
}

/// A panel's place in the layout: the split that holds it, the id shown to
/// select it, and the index of its contents in the panel store.
#[derive(Debug, Clone, Copy, PartialEq, Eq, Structural)]
pub struct LayoutPanel {
    pub split_index: usize,
    pub id: char,
    pub panel_index: usize,
}

impl LayoutPanel {
    pub fn new(split_index: usize, id: char, panel_index: usize) -> (lp: Self)
        ensures
            lp == (LayoutPanel { split_index, id, panel_index }),
    {
        LayoutPanel { split_index, id, panel_index }
    }

    pub fn panel_index(&self) -> (r: usize)
        ensures
            r == self.panel_index,
    {
        self.panel_index
    }

    pub fn id(&self) -> (r: char)
        ensures
            r == self.id,
    {
        self.id
    }

    pub fn split(&self) -> (r: usize)
        ensures
            r == self.split_index,
    {
        self.split_index
    }

    pub fn set_split(&mut self, split: usize)
        ensures
            *final(self) == (LayoutPanel { split_index: split, ..*old(self) }),
    {
        self.split_index = split;
    }
}

/// The layout and interaction state of the editor.
pub struct AppState {
    panels: Vec<LayoutPanel>,
    splits: Vec<PanelSplit>,
    active_panel: usize,
    selecting_panel: bool,
    static_panels: Vec<char>,
    messages: Vec<Message>,
    input_request: Option<InputRequest>,
    state: State,
}

/// The state of the editor as a value.
pub struct AppStateModel {
    pub panels: Seq<LayoutPanel>,
    pub splits: Seq<PanelSplitModel>,
    pub active_panel: usize,
    pub selecting_panel: bool,
    pub static_panels: Seq<char>,
    pub messages: Seq<MessageModel>,
    pub input_request: Option<InputRequestModel>,
    pub state: State,
}

pub open spec fn splits_view(splits: Seq<PanelSplit>) -> Seq<PanelSplitModel> {
    splits.map_values(|s: PanelSplit| s@)
}

pub open spec fn messages_view(messages: Seq<Message>) -> Seq<MessageModel> {
    messages.map_values(|m: Message| m@)
}

pub open spec fn request_view(r: Option<InputRequest>) -> Option<InputRequestModel> {
    match r {
        Some(r) => Some(r@),
        None => None,
    }
}

impl View for AppState {
    type V = AppStateModel;

    closed spec fn view(&self) -> AppStateModel {
        AppStateModel {
            panels: self.panels@,
            splits: splits_view(self.splits@),
            active_panel: self.active_panel,
            selecting_panel: self.selecting_panel,
            static_panels: self.static_panels@,
            messages: messages_view(self.messages@),
            input_request: request_view(self.input_request),
            state: self.state,
        }
    }
}

proof fn lemma_splits_view_update(v: Seq<PanelSplit>, i: int, x: PanelSplit)
    requires
        0 <= i < v.len(),
    ensures
        splits_view(v.update(i, x)) == splits_view(v).update(i, x@),
{
    assert(splits_view(v.update(i, x)) =~= splits_view(v).update(i, x@));
}

/// The id of the prompt panel, which is always present.
pub const PROMPT_PANEL_ID: char = '$';

impl AppState {
    pub fn new() -> (app: Self)
        ensures
            app@.panels.len() == 0,
            app@.splits.len() == 0,
            app@.active_panel == 0,
            !app@.selecting_panel,
            app@.static_panels.len() == 0,
            app@.messages.len() == 0,
            app@.input_request is None,
            app@.state == State::Normal,
    {
        let app = AppState {
            panels: Vec::new(),
            splits: Vec::new(),
            active_panel: 0,
            selecting_panel: false,
            static_panels: Vec::new(),
            messages: Vec::new(),
            input_request: None,
            state: State::Normal,
        };
        proof {
            assert(splits_view(app.splits@) =~= Seq::<PanelSplitModel>::empty());
            assert(messages_view(app.messages@) =~= Seq::<MessageModel>::empty());
        }
        app
    }

    fn push_message(&mut self, m: Message)
        ensures
            final(self)@ == (AppStateModel { messages: old(self)@.messages.push(m@), ..old(self)@ }),
    {
        self.messages.push(m);
        proof {
            assert(messages_view(self.messages@) =~= messages_view(old(self).messages@).push(m@));
        }
    }

    pub fn add_error(&mut self, message: &str)
        ensures
            final(self)@ == (AppStateModel {
                messages: old(self)@.messages.push(
                    MessageModel { channel: MessageChannel::ERROR, text: message@ },
                ),
                ..old(self)@
            }),
    {
        self.push_message(Message::error(message));
    }

    pub fn add_info(&mut self, message: &str)
        ensures
            final(self)@ == (AppStateModel {
                messages: old(self)@.messages.push(
                    MessageModel { channel: MessageChannel::INFO, text: message@ },
                ),
                ..old(self)@
            }),
    {
        self.push_message(Message::info(message));
    }

    /// Lets the panels update themselves between key presses; they have
    /// nothing to do, so the state stays as it is.
    pub fn update(&mut self)
        ensures
            final(self)@ == old(self)@,
    {
    }

    pub fn static_panels(&self) -> (r: &Vec<char>)
        ensures
            r@ == self@.static_panels,
    {
        &self.static_panels
    }

    pub fn active_panel(&self) -> (r: usize)
        ensures
            r == self@.active_panel,
    {
        self.active_panel
    }

    pub fn set_active_panel(&mut self, index: usize)
        ensures
            final(self)@ == (AppStateModel { active_panel: index, ..old(self)@ }),
    {
        self.active_panel = index;
    }

    pub fn get_panel(&self, index: usize) -> (r: Option<&LayoutPanel>)
        ensures
            match r {
                Some(lp) => index < self@.panels.len() && *lp == self@.panels[index as int],
                None => index >= self@.panels.len(),
            },
    {
        if index < self.panels.len() {
            Some(&self.panels[index])
        } else {
            None
        }
    }

    pub fn get_active_panel(&self) -> (r: Option<&LayoutPanel>)
        ensures
            match r {
                Some(lp) => self@.active_panel < self@.panels.len() && *lp
                    == self@.panels[self@.active_panel as int],
                None => self@.active_panel >= self@.panels.len(),
            },
    {
        self.get_panel(self.active_panel)
    }

    pub fn get_panel_mut(&mut self, index: usize) -> (r: Option<&mut LayoutPanel>)
        ensures
            match r {
                Some(lp) => {
                    &&& index < old(self)@.panels.len()
                    &&& *lp == old(self)@.panels[index as int]
                    &&& final(self)@ == (AppStateModel { panels: old(self)@.panels.update(index as int, *final(lp)), ..old(self)@ })
                },
                None => index >= old(self)@.panels.len() && final(self)@ == old(self)@,
            },
    {
        if index < self.panels.len() {
            Some(&mut self.panels[index])
        } else {
            None
        }
    }

    pub fn get_split_mut(&mut self, index: usize) -> (r: Option<&mut PanelSplit>)
        ensures
            match r {
                Some(s) => {
                    &&& index < old(self)@.splits.len()
                    &&& s@ == old(self)@.splits[index as int]
                    &&& final(self)@ == (AppStateModel { splits: old(self)@.splits.update(index as int, final(s)@), ..old(self)@ })
                },
                None => index >= old(self)@.splits.len() && final(self)@ == old(self)@,
            },
    {
        if index < self.splits.len() {
            let s = &mut self.splits[index];
            proof {
                lemma_splits_view_update(old(self).splits@, index as int, *final(s));
            }
            Some(s)
        } else {
            None
        }
    }

    pub fn get_active_panel_mut(&mut self) -> (r: Option<&mut LayoutPanel>)
        ensures
            match r {
                Some(lp) => {
                    &&& old(self)@.active_panel < old(self)@.panels.len()
                    &&& *lp == old(self)@.panels[old(self)@.active_panel as int]
                    &&& final(self)@ == (AppStateModel {
                        panels: old(self)@.panels.update(old(self)@.active_panel as int, *final(lp)),
                        ..old(self)@
                    })
                },
                None => old(self)@.active_panel >= old(self)@.panels.len() && final(self)@ == old(self)@,
            },
    {
        let index = self.active_panel;
        self.get_panel_mut(index)
    }

    pub fn get_split(&self, index: usize) -> (r: Option<&PanelSplit>)
        ensures
            match r {
                Some(s) => index < self@.splits.len() && s@ == self@.splits[index as int],
                None => index >= self@.splits.len(),
            },
    {
        if index < self.splits.len() {
            Some(&self.splits[index])
        } else {
            None
        }
    }

    pub fn splits_len(&self) -> (r: usize)
        ensures
            r == self@.splits.len(),
    {
        self.splits.len()
    }

    pub fn push_split(&mut self, split: PanelSplit)
        ensures
            final(self)@ == (AppStateModel { splits: old(self)@.splits.push(split@), ..old(self)@ }),
    {
        self.splits.push(split);
        proof {
            assert(splits_view(self.splits@) =~= splits_view(old(self).splits@).push(split@));
        }
    }

    pub fn selecting_panel(&self) -> (r: bool)
        ensures
            r == self@.selecting_panel,
    {
        self.selecting_panel
    }

    pub fn set_selecting_panel(&mut self, selecting: bool)
        ensures
            final(self)@ == (AppStateModel { selecting_panel: selecting, ..old(self)@ }),
    {
        self.selecting_panel = selecting;
    }

    pub fn get_messages(&self) -> (r: &Vec<Message>)
        ensures
            messages_view(r@) == self@.messages,
    {
        &self.messages
    }

    pub fn input_request(&self) -> (r: Option<&InputRequest>)
        ensures
            match r {
                Some(req) => self@.input_request == Some(req@),
                None => self@.input_request is None,
            },
    {
        self.input_request.as_ref()
    }

    pub fn set_input_request(&mut self, request: Option<InputRequest>)
        ensures
            final(self)@ == (AppStateModel { input_request: request_view(request), ..old(self)@ }),
    {
        self.input_request = request;
    }

    pub fn state(&self) -> (r: State)
        ensures
            r == self@.state,
    {
        self.state
    }

    pub fn set_state(&mut self, state: State)
        ensures
            final(self)@ == (AppStateModel { state, ..old(self)@ }),
    {
        self.state = state;
    }

    /// The layout panels, by index.
    pub fn layout_panels(&self) -> (r: &Vec<LayoutPanel>)
        ensures
            r@ == self@.panels,
    {
        &self.panels
    }

    /// The splits, by index.
    pub fn splits(&self) -> (r: &Vec<PanelSplit>)
        ensures
            splits_view(r@) == self@.splits,
    {
        &self.splits
    }

    /// Replaces the layout panel at `index`; an index past the end adds one.
    pub fn set_layout_panel(&mut self, index: usize, lp: LayoutPanel)
        ensures
            final(self)@ == (AppStateModel {
                panels: if index < old(self)@.panels.len() {
                    old(self)@.panels.update(index as int, lp)
                } else {
                    old(self)@.panels.push(lp)
                },
                ..old(self)@
            }),
    {
        if index < self.panels.len() {
            self.panels.set(index, lp);
        } else {
            self.panels.push(lp);
        }
    }

    /// Takes the child at `child` out of the split at `split`, where both
    /// exist.
    pub fn remove_split_child(&mut self, split: usize, child: usize)
        ensures
            final(self)@ == (AppStateModel {
                splits: if split < old(self)@.splits.len() && child < old(self)@.splits[split as int].panels.len() {
                    old(self)@.splits.update(
                        split as int,
                        PanelSplitModel {
                            panels: old(self)@.splits[split as int].panels.remove(child as int),
                            ..old(self)@.splits[split as int]
                        },
                    )
                } else {
                    old(self)@.splits
                },
                ..old(self)@
            }),
    {
        if split < self.splits.len() && child < self.splits[split].panels.len() {
            let ghost old_splits = self.splits@;
            let mut s = self.splits.remove(split);
            s.panels.remove(child);
            self.splits.insert(split, s);
            proof {
                assert(splits_view(self.splits@) =~= splits_view(old_splits).update(
                    split as int,
                    s@,
                ));
            }
        }
    }
}


/// The outcome of a walk as a number: 0 done, 1 failed, 2 stuck.
pub open spec fn outcome_kind(o: OrderOutcome) -> u8 {
    match o {
        OrderOutcome::Done(_) => 0,
        OrderOutcome::Failed(_) => 1,
        OrderOutcome::Stuck => 2,
    }
}

/// The first index at which `s` holds `x`, if any.
pub open spec fn index_of<A>(s: Seq<A>, x: A) -> Option<int> {
    if exists|i: int| 0 <= i < s.len() && s[i] == x {
        Some(choose|i: int| 0 <= i < s.len() && s[i] == x && forall|j: int| 0 <= j < i ==> s[j] != x)
    } else {
        None
    }
}

pub proof fn lemma_index_of<A>(s: Seq<A>, x: A, i: int)
    requires
        0 <= i < s.len(),
        s[i] == x,
        forall|j: int| 0 <= j < i ==> s[j] != x,
    ensures
        index_of(s, x) == Some(i),
{
    let k = choose|k: int| 0 <= k < s.len() && s[k] == x && forall|j: int| 0 <= j < k ==> s[j] != x;
    assert(0 <= k < s.len() && s[k] == x && forall|j: int| 0 <= j < k ==> s[j] != x) by {
        assert(0 <= i < s.len() && s[i] == x && forall|j: int| 0 <= j < i ==> s[j] != x);
    }
    if k < i {
        assert(s[k] != x);
    }
    if i < k {
        assert(s[i] != x);
    }
}

/// The ids offered for new panels, in order: `a` to `z`, then `A` to `Z`.
pub open spec fn id_option(k: int) -> char {
    if k < 26 {
        (97 + k) as char
    } else {
        (65 + k - 26) as char
    }
}

/// Whether a layout panel has the id `c`.
pub open spec fn id_used(lps: Seq<LayoutPanel>, c: char) -> bool {
    exists|i: int| 0 <= i < lps.len() && (#[trigger] lps[i]).id == c
}

/// The first offered id that no layout panel has; the nul character when
/// all are taken.
pub open spec fn first_available_id(lps: Seq<LayoutPanel>) -> char {
    if exists|k: int| 0 <= k < 52 && !id_used(lps, #[trigger] id_option(k)) {
        id_option(
            choose|k: int|
                0 <= k < 52 && !id_used(lps, #[trigger] id_option(k)) && forall|j: int|
                    0 <= j < k ==> id_used(lps, #[trigger] id_option(j)),
        )
    } else {
        '\0'
    }
}

/// The state after `reset`, and the panel store with the prompt, edit and
/// messages panels added.
pub open spec fn reset_result(a: AppStateModel, store: Seq<TextPanelModel>) -> (AppStateModel, Seq<TextPanelModel>) {
    let (i0, s1) = pushed(store, fresh_panel(PanelKind::Input));
    let (i1, s2) = pushed(s1, fresh_panel(PanelKind::Edit));
    let (i2, s3) = pushed(s2, fresh_panel(PanelKind::Messages));
    (
        AppStateModel {
            panels: seq![
                LayoutPanel { split_index: 0, id: PROMPT_PANEL_ID, panel_index: i0 as usize },
                LayoutPanel { split_index: 0, id: 'a', panel_index: i1 as usize },
                LayoutPanel { split_index: 0, id: 'b', panel_index: i2 as usize },
            ],
            splits: seq![
                PanelSplitModel {
                    direction: Direction::Vertical,
                    panels: seq![UserSplits::Panel(0), UserSplits::Panel(1), UserSplits::Panel(2)],
                },
            ],
            active_panel: 1,
            selecting_panel: false,
            static_panels: seq![PROMPT_PANEL_ID],
            input_request: None,
            state: State::Normal,
            ..a
        },
        s3,
    )
}

/// The state after a new edit panel is added in the split `split`: its
/// contents go to the store, its layout entry gets the first free id. The
/// third element is its index in the store.
pub open spec fn add_panel_result(a: AppStateModel, store: Seq<TextPanelModel>, split: usize) -> (AppStateModel, Seq<TextPanelModel>, usize) {
    let (i, s1) = pushed(store, fresh_panel(PanelKind::Edit));
    (
        AppStateModel {
            panels: a.panels.push(
                LayoutPanel {
                    split_index: split,
                    id: first_available_id(a.panels),
                    panel_index: i as usize,
                },
            ),
            ..a
        },
        s1,
        i as usize,
    )
}

/// A state with a message added.
pub open spec fn with_message(a: AppStateModel, channel: MessageChannel, text: Seq<char>) -> AppStateModel {
    AppStateModel { messages: a.messages.push(MessageModel { channel, text }), ..a }
}

/// A split with the child at `i` replaced.
pub open spec fn split_with_child(s: PanelSplitModel, i: int, child: UserSplits) -> PanelSplitModel {
    PanelSplitModel { panels: s.panels.update(i, child), ..s }
}

/// A split with a child added at the end.
pub open spec fn split_with_pushed(s: PanelSplitModel, child: UserSplits) -> PanelSplitModel {
    PanelSplitModel { panels: s.panels.push(child), ..s }
}

fn push_default_panels(panels: &mut Panels) -> (r: (usize, usize, usize))
    ensures
        ({
            let (i0, s1) = pushed(old(panels)@, fresh_panel(PanelKind::Input));
            let (i1, s2) = pushed(s1, fresh_panel(PanelKind::Edit));
            let (i2, s3) = pushed(s2, fresh_panel(PanelKind::Messages));
            r == (i0 as usize, i1 as usize, i2 as usize) && final(panels)@ == s3
        }),
{
    let input_index = panels.push(PanelFactory::input());
    let edit_index = panels.push(PanelFactory::edit());
    let messages_index = panels.push(PanelFactory::messages());
    (input_index, edit_index, messages_index)
}

fn default_splits() -> (r: Vec<PanelSplit>)
    ensures
        splits_view(r@) == seq![
            PanelSplitModel {
                direction: Direction::Vertical,
                panels: seq![UserSplits::Panel(0), UserSplits::Panel(1), UserSplits::Panel(2)],
            },
        ],
{
    let mut children: Vec<UserSplits> = Vec::new();
    children.push(UserSplits::Panel(0));
    children.push(UserSplits::Panel(1));
    children.push(UserSplits::Panel(2));
    assert(children@ =~= seq![UserSplits::Panel(0), UserSplits::Panel(1), UserSplits::Panel(2)]);
    let mut splits: Vec<PanelSplit> = Vec::new();
    splits.push(PanelSplit::new(Direction::Vertical, children));
    assert(splits_view(splits@) =~= seq![
        PanelSplitModel {
            direction: Direction::Vertical,
            panels: seq![UserSplits::Panel(0), UserSplits::Panel(1), UserSplits::Panel(2)],
        },
    ]);
    splits
}

fn default_layout(i0: usize, i1: usize, i2: usize) -> (r: Vec<LayoutPanel>)
    ensures
        r@ == seq![
            LayoutPanel { split_index: 0, id: PROMPT_PANEL_ID, panel_index: i0 },
            LayoutPanel { split_index: 0, id: 'a', panel_index: i1 },
            LayoutPanel { split_index: 0, id: 'b', panel_index: i2 },
        ],
{
    let mut lps: Vec<LayoutPanel> = Vec::new();
    lps.push(LayoutPanel::new(0, PROMPT_PANEL_ID, i0));
    lps.push(LayoutPanel::new(0, 'a', i1));
    lps.push(LayoutPanel::new(0, 'b', i2));
    assert(lps@ =~= seq![
        LayoutPanel { split_index: 0, id: PROMPT_PANEL_ID, panel_index: i0 },
        LayoutPanel { split_index: 0, id: 'a', panel_index: i1 },
        LayoutPanel { split_index: 0, id: 'b', panel_index: i2 },
    ]);
    lps
}

impl AppState {
    /// Sets up the default layout: the prompt panel, an edit panel and the
    /// messages panel in one vertical split, the edit panel active.
    pub fn reset(&mut self, panels: &mut Panels)
        ensures
            (final(self)@, final(panels)@) == reset_result(old(self)@, old(panels)@),
    {
        let (i0, i1, i2) = push_default_panels(panels);
        self.splits = default_splits();
        self.panels = default_layout(i0, i1, i2);
        self.active_panel = 1;
        self.selecting_panel = false;
        let mut statics: Vec<char> = Vec::new();
        statics.push(PROMPT_PANEL_ID);
        self.static_panels = statics;
        self.state = State::Normal;
        self.input_request = None;
        proof {
            assert(self@.static_panels =~= seq![PROMPT_PANEL_ID]);
        }
    }

    /// Sets up the default layout; see `reset`.
    pub fn init(&mut self, panels: &mut Panels)
        ensures
            (final(self)@, final(panels)@) == reset_result(old(self)@, old(panels)@),
    {
        self.reset(panels);
    }

    fn id_in_use(&self, c: char) -> (r: bool)
        ensures
            r == id_used(self@.panels, c),
    {
        let mut i: usize = 0;
        while i < self.panels.len()
            invariant
                i <= self.panels@.len(),
                forall|j: int| 0 <= j < i ==> (#[trigger] self.panels@[j]).id != c,
            decreases self.panels@.len() - i,
        {
            if self.panels[i].id == c {
                return true;
            }
            i = i + 1;
        }
        false
    }

    /// The first id in `a` to `z`, then `A` to `Z`, that no panel has; the nul
    /// character when all are taken.
    pub fn first_available_id(&self) -> (r: char)
        ensures
            r == first_available_id(self@.panels),
    {
        let mut k: u8 = 0;
        while k < 52
            invariant
                k <= 52,
                forall|j: int| 0 <= j < k ==> id_used(self@.panels, #[trigger] id_option(j)),
            decreases 52 - k,
        {
            let c: char = if k < 26 {
                (97 + k) as char
            } else {
                (65 + k - 26) as char
            };
            assert(c == id_option(k as int));
            if !self.id_in_use(c) {
                proof {
                    let kk = choose|kk: int|
                        0 <= kk < 52 && !id_used(self@.panels, #[trigger] id_option(kk)) && forall|j: int|
                            0 <= j < kk ==> id_used(self@.panels, #[trigger] id_option(j));
                    assert(0 <= kk < 52 && !id_used(self@.panels, id_option(kk)) && forall|j: int|
                        0 <= j < kk ==> id_used(self@.panels, #[trigger] id_option(j))) by {
                        assert(0 <= k < 52 && !id_used(self@.panels, #[trigger] id_option(k as int)) && forall|j: int|
                            0 <= j < k ==> id_used(self@.panels, #[trigger] id_option(j)));
                    }
                    if kk < k {
                        assert(id_used(self@.panels, id_option(kk)));
                    }
                    if k < kk {
                        assert(id_used(self@.panels, id_option(k as int)));
                    }
                }
                return c;
            }
            k = k + 1;
        }
        '\0'
    }

    /// Adds a new edit panel in the split `split` and gives its index in the
    /// panel store.
    pub fn add_panel(&mut self, split: usize, panels: &mut Panels) -> (r: usize)
        ensures
            (final(self)@, final(panels)@, r) == add_panel_result(old(self)@, old(panels)@, split),
    {
        let new_id = self.first_available_id();
        let new_index = panels.push(PanelFactory::edit());
        self.panels.push(LayoutPanel::new(split, new_id, new_index));
        new_index
    }

    /// Adds a new edit panel to the split of the active panel.
    pub fn add_panel_to_active_split(&mut self, _code: KeyCode, panels: &mut Panels)
        ensures
            (final(self)@, final(panels)@) == add_to_active_split_result(old(self)@, old(panels)@),
    {
        if self.active_panel >= self.panels.len() {
            self.add_error("No active panel. Setting to be last panel.");
            self.active_panel = 1;
            return;
        }
        let active_split = self.panels[self.active_panel].split_index;
        let new_panel_index = self.add_panel(active_split, panels);
        if active_split < self.splits.len() {
            let ghost before = self@;
            self.splits[active_split].panels.push(UserSplits::Panel(new_panel_index));
            proof {
                assert(self@.splits =~= before.splits.update(
                    active_split as int,
                    split_with_pushed(before.splits[active_split as int], UserSplits::Panel(new_panel_index)),
                ));
            }
        } else {
            self.add_error("Active panel's split not found. Resetting state.");
            self.reset(panels);
        }
    }

    pub fn start_selecting_panel(&mut self, _code: KeyCode, _panels: &mut Panels)
        ensures
            final(self)@ == (AppStateModel { selecting_panel: true, ..old(self)@ }),
            final(_panels)@ == old(_panels)@,
    {
        self.selecting_panel = true;
    }
}

/// Adding a panel to the active panel's split; without an active panel the
/// edit panel of the default layout becomes active instead, and with the
/// split missing the state is reset.
pub open spec fn add_to_active_split_result(a: AppStateModel, store: Seq<TextPanelModel>) -> (AppStateModel, Seq<TextPanelModel>) {
    if a.active_panel >= a.panels.len() {
        (
            AppStateModel {
                active_panel: 1,
                ..with_message(a, MessageChannel::ERROR, "No active panel. Setting to be last panel."@)
            },
            store,
        )
    } else {
        let split = a.panels[a.active_panel as int].split_index;
        let (a1, s1, idx) = add_panel_result(a, store, split);
        if split < a.splits.len() {
            (
                AppStateModel {
                    splits: a1.splits.update(
                        split as int,
                        split_with_pushed(a1.splits[split as int], UserSplits::Panel(idx)),
                    ),
                    ..a1
                },
                s1,
            )
        } else {
            reset_result(
                with_message(a1, MessageChannel::ERROR, "Active panel's split not found. Resetting state."@),
                s1,
            )
        }
    }
}

/// The ids of layout panels, by index.
pub open spec fn panel_ids(lps: Seq<LayoutPanel>) -> Seq<char> {
    lps.map_values(|lp: LayoutPanel| lp.id)
}

/// The state after the panel selection key `code`.
pub open spec fn select_panel_result(a: AppStateModel, code: KeyCode) -> AppStateModel {
    let a0 = AppStateModel { selecting_panel: false, ..a };
    match code {
        KeyCode::Char(c) => match index_of(panel_ids(a.panels), c) {
            None => with_message(a0, MessageChannel::INFO, "No panel with ID '"@.push(c) + "'"@),
            Some(i) => if a.input_request is Some {
                with_message(
                    AppStateModel { active_panel: i as usize, input_request: None, ..a0 },
                    MessageChannel::INFO,
                    "Canceled input request due to panel selection."@,
                )
            } else {
                AppStateModel { active_panel: i as usize, ..a0 }
            },
        },
        _ => with_message(
            a0,
            MessageChannel::INFO,
            "Invalid key for panel id. Options are letters a-z, lower or capital."@,
        ),
    }
}

/// The state after splitting the active panel in `direction`: the active
/// panel's place in its split goes to a new split that holds it and a new
/// edit panel. The layout is reset when the active panel, its split, or its
/// place in the split is missing; the prompt panel is not split.
pub open spec fn split_result(a: AppStateModel, store: Seq<TextPanelModel>, direction: Direction) -> (AppStateModel, Seq<TextPanelModel>) {
    let n = a.splits.len();
    if a.active_panel >= a.panels.len() {
        reset_result(with_message(a, MessageChannel::ERROR, "No active panel. Setting to be last panel."@), store)
    } else {
        let lp = a.panels[a.active_panel as int];
        let a1 = AppStateModel {
            panels: a.panels.update(a.active_panel as int, LayoutPanel { split_index: n as usize, ..lp }),
            ..a
        };
        if a.static_panels.contains(lp.id) {
            (with_message(a1, MessageChannel::INFO, "Cannot split static panel"@), store)
        } else {
            let (a2, s2, idx) = add_panel_result(a1, store, n as usize);
            if lp.split_index >= a.splits.len() {
                reset_result(
                    with_message(a2, MessageChannel::ERROR, "Active panel's split not found. Resetting state."@),
                    s2,
                )
            } else {
                match index_of(a.splits[lp.split_index as int].panels, UserSplits::Panel(a.active_panel)) {
                    None => reset_result(
                        with_message(
                            a2,
                            MessageChannel::ERROR,
                            "Active panel not present in split. Setting to be last panel."@,
                        ),
                        s2,
                    ),
                    Some(i) => (
                        AppStateModel {
                            splits: a2.splits.update(
                                lp.split_index as int,
                                split_with_child(a2.splits[lp.split_index as int], i, UserSplits::Split(n as usize)),
                            ).push(
                                PanelSplitModel {
                                    direction,
                                    panels: seq![UserSplits::Panel(a.active_panel), UserSplits::Panel(idx)],
                                },
                            ),
                            ..a2
                        },
                        s2,
                    ),
                }
            }
        }
    }
}

fn contains_char(v: &Vec<char>, c: char) -> (r: bool)
    ensures
        r == v@.contains(c),
{
    let mut i: usize = 0;
    while i < v.len()
        invariant
            i <= v@.len(),
            forall|j: int| 0 <= j < i ==> v@[j] != c,
        decreases v@.len() - i,
    {
        if v[i] == c {
            assert(v@[i as int] == c);
            return true;
        }
        i = i + 1;
    }
    false
}

fn find_child_panel(children: &Vec<UserSplits>, panel: usize) -> (r: Option<usize>)
    ensures
        match r {
            Some(i) => i < children@.len() && children@[i as int] == UserSplits::Panel(panel) && index_of(children@, UserSplits::Panel(panel)) == Some(i as int),
            None => index_of(children@, UserSplits::Panel(panel)) is None,
        },
{
    let mut i: usize = 0;
    while i < children.len()
        invariant
            i <= children@.len(),
            forall|j: int| 0 <= j < i ==> children@[j] != UserSplits::Panel(panel),
        decreases children@.len() - i,
    {
        if children[i] == UserSplits::Panel(panel) {
            proof {
                lemma_index_of(children@, UserSplits::Panel(panel), i as int);
            }
            return Some(i);
        }
        i = i + 1;
    }
    None
}

fn find_child_split(children: &Vec<UserSplits>, split: usize) -> (r: Option<usize>)
    ensures
        match r {
            Some(i) => i < children@.len() && children@[i as int] == UserSplits::Split(split) && index_of(children@, UserSplits::Split(split)) == Some(i as int),
            None => index_of(children@, UserSplits::Split(split)) is None,
        },
{
    let mut i: usize = 0;
    while i < children.len()
        invariant
            i <= children@.len(),
            forall|j: int| 0 <= j < i ==> children@[j] != UserSplits::Split(split),
        decreases children@.len() - i,
    {
        if children[i] == UserSplits::Split(split) {
            proof {
                lemma_index_of(children@, UserSplits::Split(split), i as int);
            }
            return Some(i);
        }
        i = i + 1;
    }
    None
}

impl AppState {
    fn find_panel_with_id(&self, c: char) -> (r: Option<usize>)
        ensures
            match r {
                Some(i) => index_of(panel_ids(self@.panels), c) == Some(i as int),
                None => index_of(panel_ids(self@.panels), c) is None,
            },
    {
        let ghost ids = panel_ids(self@.panels);
        let mut i: usize = 0;
        while i < self.panels.len()
            invariant
                i <= self.panels@.len(),
                ids == panel_ids(self@.panels),
                forall|j: int| 0 <= j < i ==> ids[j] != c,
            decreases self.panels@.len() - i,
        {
            if self.panels[i].id == c {
                proof {
                    lemma_index_of(ids, c, i as int);
                }
                return Some(i);
            }
            i = i + 1;
        }
        None
    }

    /// Makes the panel with the id typed active, ending panel selection; a
    /// pending input request is cancelled.
    pub fn select_panel(&mut self, code: KeyCode, _panels: &mut Panels)
        ensures
            final(self)@ == select_panel_result(old(self)@, code),
            final(_panels)@ == old(_panels)@,
    {
        self.selecting_panel = false;
        match code {
            KeyCode::Char(c) => match self.find_panel_with_id(c) {
                None => {
                    let mut text = "No panel with ID '".to_owned();
                    push_char(&mut text, c);
                    text.append("'");
                    self.push_message(Message::info(text.as_str()));
                },
                Some(index) => {
                    self.set_active_panel(index);
                    if self.input_request.is_some() {
                        self.input_request = None;
                        self.push_message(Message::info("Canceled input request due to panel selection."));
                    }
                },
            },
            _ => {
                self.push_message(
                    Message::info("Invalid key for panel id. Options are letters a-z, lower or capital."),
                );
            },
        }
    }

    /// Splits the active panel in `direction`; see `split_result`.
    pub fn split(&mut self, direction: Direction, panels: &mut Panels)
        ensures
            (final(self)@, final(panels)@) == split_result(old(self)@, old(panels)@, direction),
    {
        let new_split_index = self.splits.len();
        if self.active_panel >= self.panels.len() {
            self.add_error("No active panel. Setting to be last panel.");
            self.reset(panels);
            return;
        }
        let lp = self.panels[self.active_panel];
        let active_split = lp.split_index;
        let active_panel_id = lp.id;
        self.panels.set(self.active_panel, LayoutPanel::new(new_split_index, lp.id, lp.panel_index));
        if contains_char(&self.static_panels, active_panel_id) {
            self.add_info("Cannot split static panel");
            return;
        }
        let new_panel_index = self.add_panel(new_split_index, panels);
        let mut children: Vec<UserSplits> = Vec::new();
        children.push(UserSplits::Panel(self.active_panel));
        children.push(UserSplits::Panel(new_panel_index));
        let new_panel_split = PanelSplit::new(direction, children);
        let active_panel_index = self.active_panel;
        if active_split >= self.splits.len() {
            self.add_error("Active panel's split not found. Resetting state.");
            self.reset(panels);
            return;
        }
        match find_child_panel(&self.splits[active_split].panels, active_panel_index) {
            Some(i) => {
                let ghost before = self@;
                self.splits[active_split].panels.set(i, UserSplits::Split(new_split_index));
                proof {
                    assert(self@.splits =~= before.splits.update(
                        active_split as int,
                        split_with_child(before.splits[active_split as int], i as int, UserSplits::Split(new_split_index)),
                    ));
                    assert(children@ =~= seq![UserSplits::Panel(active_panel_index), UserSplits::Panel(new_panel_index)]);
                }
            },
            None => {
                self.add_error("Active panel not present in split. Setting to be last panel.");
                self.reset(panels);
                return;
            },
        }
        self.push_split(new_panel_split);
    }

    /// Splits the active panel so that the two panels sit side by side.
    pub fn split_current_panel_horizontal(&mut self, _code: KeyCode, panels: &mut Panels)
        ensures
            (final(self)@, final(panels)@) == split_result(old(self)@, old(panels)@, Direction::Vertical),
    {
        self.split(Direction::Vertical, panels)
    }

    /// Splits the active panel so that the two panels sit one above the
    /// other.
    pub fn split_current_panel_vertical(&mut self, _code: KeyCode, panels: &mut Panels)
        ensures
            (final(self)@, final(panels)@) == split_result(old(self)@, old(panels)@, Direction::Horizontal),
    {
        self.split(Direction::Horizontal, panels)
    }
}

/// The outcome of walking the split tree for the order of panels.
pub enum OrderOutcome {
    /// The layout indices of the panels with contents, in order.
    Done(Seq<usize>),
    /// The walk stopped at a missing split or panel, with this message.
    Failed(Seq<char>),
    /// The walk cannot finish: a panel's contents are missing from the
    /// store, or the splits hold a cycle (the walk then runs out of depth).
    Stuck,
}

/// Walks the split `split` with at most `fuel` levels of nesting, adding
/// panels to `acc`.
pub open spec fn order_split(a: AppStateModel, store: Seq<TextPanelModel>, split: int, acc: Seq<usize>, fuel: nat) -> OrderOutcome
    decreases fuel, 0nat, 0nat,
{
    if fuel == 0 {
        OrderOutcome::Stuck
    } else if split < 0 || split >= a.splits.len() {
        OrderOutcome::Failed("Child split not found in splits."@)
    } else {
        order_children(a, store, split, 0, acc, (fuel - 1) as nat)
    }
}

/// Walks the children of the split `split` from the `k`th on.
pub open spec fn order_children(a: AppStateModel, store: Seq<TextPanelModel>, split: int, k: int, acc: Seq<usize>, fuel: nat) -> OrderOutcome
    decreases fuel, 1nat, (if 0 <= split < a.splits.len() && 0 <= k < a.splits[split].panels.len() { a.splits[split].panels.len() - k } else { 0 }) as nat,
{
    if !(0 <= split < a.splits.len()) || k < 0 || k >= a.splits[split].panels.len() {
        OrderOutcome::Done(acc)
    } else {
        match a.splits[split].panels[k] {
            UserSplits::Panel(pi) => if pi >= a.panels.len() {
                OrderOutcome::Failed("Child panel not found in panels."@)
            } else if a.panels[pi as int].panel_index >= store.len() {
                OrderOutcome::Stuck
            } else if store[a.panels[pi as int].panel_index as int].kind == PanelKind::Null {
                order_children(a, store, split, k + 1, acc, fuel)
            } else {
                order_children(a, store, split, k + 1, acc.push(pi), fuel)
            },
            UserSplits::Split(si) => match order_split(a, store, si as int, acc, fuel) {
                OrderOutcome::Done(acc2) => order_children(a, store, split, k + 1, acc2, fuel),
                other => other,
            },
        }
    }
}

/// The order of the panels with contents, walking the split tree from the
/// first split; the tree has at most as many levels as there are splits.
pub open spec fn panel_order(a: AppStateModel, store: Seq<TextPanelModel>) -> OrderOutcome {
    order_split(a, store, 0, Seq::empty(), (a.splits.len() + 1) as nat)
}

/// The last index at which `s` holds `x`, if any.
pub open spec fn last_index_of<A>(s: Seq<A>, x: A) -> Option<int> {
    if exists|i: int| 0 <= i < s.len() && s[i] == x {
        Some(choose|i: int| 0 <= i < s.len() && s[i] == x && forall|j: int| i < j < s.len() ==> s[j] != x)
    } else {
        None
    }
}

proof fn lemma_last_index_of<A>(s: Seq<A>, x: A, i: int)
    requires
        0 <= i < s.len(),
        s[i] == x,
        forall|j: int| i < j < s.len() ==> s[j] != x,
    ensures
        last_index_of(s, x) == Some(i),
{
    let k = choose|k: int| 0 <= k < s.len() && s[k] == x && forall|j: int| k < j < s.len() ==> s[j] != x;
    assert(0 <= k < s.len() && s[k] == x && forall|j: int| k < j < s.len() ==> s[j] != x) by {
        assert(0 <= i < s.len() && s[i] == x && forall|j: int| i < j < s.len() ==> s[j] != x);
    }
    if k < i {
        assert(s[i] != x);
    }
    if i < k {
        assert(s[k] != x);
    }
}

/// The panel after (or before) the active one in the panel order, wrapping
/// around at the ends.
pub open spec fn neighbour_panel(a: AppStateModel, store: Seq<TextPanelModel>, next: bool) -> Result<usize, MessageModel> {
    match panel_order(a, store) {
        OrderOutcome::Done(order) => match last_index_of(order, a.active_panel) {
            None => Err(MessageModel { channel: MessageChannel::ERROR, text: "Active panel not found after ordering."@ }),
            Some(i) => Ok(
                order[if next {
                    if i + 1 >= order.len() {
                        0
                    } else {
                        i + 1
                    }
                } else {
                    if i == 0 {
                        order.len() - 1
                    } else {
                        i - 1
                    }
                }],
            ),
        },
        OrderOutcome::Failed(m) => Err(MessageModel { channel: MessageChannel::ERROR, text: m }),
        OrderOutcome::Stuck => Err(MessageModel { channel: MessageChannel::ERROR, text: Seq::empty() }),
    }
}

/// The state after moving to a neighbouring panel: the found panel becomes
/// active; on failure the edit panel of the default layout does and the
/// message is added.
pub open spec fn panel_change_result(a: AppStateModel, r: Result<usize, MessageModel>) -> AppStateModel {
    match r {
        Ok(next) => AppStateModel { active_panel: next, ..a },
        Err(m) => AppStateModel { active_panel: 1, messages: a.messages.push(m), ..a },
    }
}

impl AppState {
    fn push_panels(&self, split: usize, order: &mut Vec<usize>, panels: &Panels, Ghost(fuel): Ghost<nat>) -> (r: Result<(), Message>)
        requires
            !(order_split(self@, panels@, split as int, old(order)@, fuel) is Stuck),
        ensures
            match order_split(self@, panels@, split as int, old(order)@, fuel) {
                OrderOutcome::Done(acc) => r is Ok && final(order)@ == acc,
                OrderOutcome::Failed(m) => r matches Err(e) && e@ == (MessageModel { channel: MessageChannel::ERROR, text: m }),
                OrderOutcome::Stuck => false,
            },
        decreases fuel,
    {
        if split >= self.splits.len() {
            return Err(Message::error("Child split not found in splits."));
        }
        let ghost a = self@;
        let ghost store = panels@;
        let ghost f1 = (fuel - 1) as nat;
        let n = self.splits[split].panels.len();
        let mut k: usize = 0;
        proof {
            assert(a.splits[split as int].panels.len() == n);
        }
        while k < n
            invariant
                a == self@,
                store == panels@,
                fuel >= 1,
                f1 == fuel - 1,
                split < a.splits.len(),
                n == a.splits[split as int].panels.len(),
                k <= n,
                !(order_split(a, store, split as int, old(order)@, fuel) is Stuck),
                order_split(a, store, split as int, old(order)@, fuel) == order_children(a, store, split as int, k as int, order@, f1),
            decreases n - k,
        {
            let child = self.splits[split].panels[k];
            proof {
                assert(child == a.splits[split as int].panels[k as int]);
                assert(order_children(a, store, split as int, k as int, order@, f1) == match child {
                    UserSplits::Panel(pi) => if pi >= a.panels.len() {
                        OrderOutcome::Failed("Child panel not found in panels."@)
                    } else if a.panels[pi as int].panel_index >= store.len() {
                        OrderOutcome::Stuck
                    } else if store[a.panels[pi as int].panel_index as int].kind == PanelKind::Null {
                        order_children(a, store, split as int, k + 1, order@, f1)
                    } else {
                        order_children(a, store, split as int, k + 1, order@.push(pi), f1)
                    },
                    UserSplits::Split(si) => match order_split(a, store, si as int, order@, f1) {
                        OrderOutcome::Done(acc2) => order_children(a, store, split as int, k + 1, acc2, f1),
                        other => other,
                    },
                });
            }
            match child {
                UserSplits::Panel(panel_index) => {
                    if panel_index >= self.panels.len() {
                        return Err(Message::error("Child panel not found in panels."));
                    }
                    let store_index = self.panels[panel_index].panel_index;
                    match panels.get(store_index) {
                        Some(panel) => {
                            if panel.kind() == PanelKind::Null {
                            } else {
                                order.push(panel_index);
                            }
                        },
                        None => {
                            proof {
                                assert(false);
                            }
                        },
                    }
                },
                UserSplits::Split(split_index) => {
                    let ghost acc = order@;
                    match self.push_panels(split_index, order, panels, Ghost(f1)) {
                        Ok(()) => {},
                        Err(e) => {
                            return Err(e);
                        },
                    }
                },
            }
            k = k + 1;
        }
        Ok(())
    }

    /// How walking the split `split` with `fuel` levels ends: 0 when it is
    /// done, 1 when it fails with a message, 2 when it is stuck.
    fn walk_outcome(&self, split: usize, panels: &Panels, fuel: usize, Ghost(acc): Ghost<Seq<usize>>) -> (r: u8)
        ensures
            r == outcome_kind(order_split(self@, panels@, split as int, acc, fuel as nat)),
        decreases fuel,
    {
        if fuel == 0 {
            return 2;
        }
        if split >= self.splits.len() {
            return 1;
        }
        let ghost a = self@;
        let ghost store = panels@;
        let f1: usize = fuel - 1;
        let n = self.splits[split].panels.len();
        let ghost mut cur = acc;
        let mut k: usize = 0;
        proof {
            assert(a.splits[split as int].panels.len() == n);
        }
        while k < n
            invariant
                a == self@,
                store == panels@,
                f1 == fuel - 1,
                split < a.splits.len(),
                n == a.splits[split as int].panels.len(),
                k <= n,
                order_split(a, store, split as int, acc, fuel as nat) == order_children(a, store, split as int, k as int, cur, f1 as nat),
            decreases n - k,
        {
            let child = self.splits[split].panels[k];
            proof {
                assert(child == a.splits[split as int].panels[k as int]);
            }
            match child {
                UserSplits::Panel(panel_index) => {
                    if panel_index >= self.panels.len() {
                        return 1;
                    }
                    let store_index = self.panels[panel_index].panel_index;
                    match panels.get(store_index) {
                        Some(panel) => {
                            if panel.kind() != PanelKind::Null {
                                proof {
                                    cur = cur.push(panel_index);
                                }
                            }
                        },
                        None => {
                            return 2;
                        },
                    }
                },
                UserSplits::Split(split_index) => {
                    let r = self.walk_outcome(split_index, panels, f1, Ghost(cur));
                    if r != 0 {
                        return r;
                    }
                    proof {
                        cur = match order_split(a, store, split_index as int, cur, f1 as nat) {
                            OrderOutcome::Done(x) => x,
                            _ => cur,
                        };
                    }
                },
            }
            k = k + 1;
        }
        0
    }

    /// Whether the panels can be walked in order: no panel's contents are
    /// missing from the store and the splits hold no cycle.
    pub fn walk_finishes(&self, panels: &Panels) -> (r: bool)
        requires
            self@.splits.len() < usize::MAX,
        ensures
            r == !(panel_order(self@, panels@) is Stuck),
    {
        self.walk_outcome(0, panels, self.splits.len() + 1, Ghost(Seq::empty())) != 2
    }

    /// Whether the prompt panel's contents are in the store.
    pub fn prompt_available(&self, panels: &Panels) -> (r: bool)
        ensures
            r == prompt_ok(self@, panels@),
    {
        self.panels.len() > 0 && self.panels[0].panel_index < panels.len()
    }

    fn build_order(&self, panels: &Panels) -> (r: Result<Vec<usize>, Message>)
        requires
            !(panel_order(self@, panels@) is Stuck),
        ensures
            match panel_order(self@, panels@) {
                OrderOutcome::Done(order) => r matches Ok(v) && v@ == order,
                OrderOutcome::Failed(m) => r matches Err(e) && e@ == (MessageModel { channel: MessageChannel::ERROR, text: m }),
                OrderOutcome::Stuck => false,
            },
    {
        let mut order: Vec<usize> = Vec::new();
        match self.push_panels(0, &mut order, panels, Ghost((self@.splits.len() + 1) as nat)) {
            Ok(()) => Ok(order),
            Err(e) => Err(e),
        }
    }

    fn active_panel_index(&self, panels: &Panels, next: bool) -> (r: Result<usize, Message>)
        requires
            !(panel_order(self@, panels@) is Stuck),
        ensures
            match neighbour_panel(self@, panels@, next) {
                Ok(i) => r == Ok::<usize, Message>(i),
                Err(m) => r matches Err(e) && e@ == m,
            },
    {
        let order = match self.build_order(panels) {
            Ok(order) => order,
            Err(e) => {
                return Err(e);
            },
        };
        let mut found: Option<usize> = None;
        let mut i: usize = 0;
        while i < order.len()
            invariant
                i <= order@.len(),
                match found {
                    Some(f) => f < i && order@[f as int] == self.active_panel && forall|j: int| f < j < i ==> order@[j] != self.active_panel,
                    None => forall|j: int| 0 <= j < i ==> order@[j] != self.active_panel,
                },
            decreases order@.len() - i,
        {
            if order[i] == self.active_panel {
                found = Some(i);
            }
            i = i + 1;
        }
        match found {
            None => Err(Message::error("Active panel not found after ordering.")),
            Some(index) => {
                proof {
                    lemma_last_index_of(order@, self.active_panel, index as int);
                }
                let target = if next {
                    if index + 1 >= order.len() {
                        0
                    } else {
                        index + 1
                    }
                } else {
                    if index == 0 {
                        order.len() - 1
                    } else {
                        index - 1
                    }
                };
                Ok(order[target])
            },
        }
    }

    fn next_panel_index(&self, panels: &Panels) -> (r: Result<usize, Message>)
        requires
            !(panel_order(self@, panels@) is Stuck),
        ensures
            match neighbour_panel(self@, panels@, true) {
                Ok(i) => r == Ok::<usize, Message>(i),
                Err(m) => r matches Err(e) && e@ == m,
            },
    {
        self.active_panel_index(panels, true)
    }

    fn previous_panel_index(&self, panels: &Panels) -> (r: Result<usize, Message>)
        requires
            !(panel_order(self@, panels@) is Stuck),
        ensures
            match neighbour_panel(self@, panels@, false) {
                Ok(i) => r == Ok::<usize, Message>(i),
                Err(m) => r matches Err(e) && e@ == m,
            },
    {
        self.active_panel_index(panels, false)
    }

    fn resolve_panel_change(&mut self, r: Result<usize, Message>)
        ensures
            final(self)@ == panel_change_result(
                old(self)@,
                match r {
                    Ok(i) => Ok(i),
                    Err(e) => Err(e@),
                },
            ),
    {
        match r {
            Ok(next) => self.active_panel = next,
            Err(e) => {
                self.active_panel = 1;
                self.push_message(e);
            },
        }
    }

    /// Makes the next panel in the layout order active.
    pub fn activate_next_panel(&mut self, _code: KeyCode, panels: &mut Panels)
        requires
            !(panel_order(old(self)@, old(panels)@) is Stuck),
        ensures
            final(self)@ == panel_change_result(old(self)@, neighbour_panel(old(self)@, old(panels)@, true)),
            final(panels)@ == old(panels)@,
    {
        let r = self.next_panel_index(panels);
        self.resolve_panel_change(r);
    }

    /// Makes the previous panel in the layout order active.
    pub fn activate_previous_panel(&mut self, _code: KeyCode, panels: &mut Panels)
        requires
            !(panel_order(old(self)@, old(panels)@) is Stuck),
        ensures
            final(self)@ == panel_change_result(old(self)@, neighbour_panel(old(self)@, old(panels)@, false)),
            final(panels)@ == old(panels)@,
    {
        let r = self.previous_panel_index(panels);
        self.resolve_panel_change(r);
    }
}

/// The first split, in order, that holds `Split(child)` among its
/// children, with the place of that child in it.
pub open spec fn parent_of(splits: Seq<PanelSplitModel>, child: usize) -> Option<(int, int)> {
    match index_of(splits.map_values(|sp: PanelSplitModel| sp.panels.contains(UserSplits::Split(child))), true) {
        Some(i) => match index_of(splits[i].panels, UserSplits::Split(child)) {
            Some(j) => Some((i, j)),
            None => None,
        },
        None => None,
    }
}

/// The number of layout panels whose contents are in the store and are not
/// an empty slot.
pub open spec fn active_count(lps: Seq<LayoutPanel>, store: Seq<TextPanelModel>) -> nat
    decreases lps.len(),
{
    if lps.len() == 0 {
        0
    } else {
        active_count(lps.drop_last(), store) + if lps.last().panel_index < store.len()
            && store[lps.last().panel_index as int].kind != PanelKind::Null {
            1nat
        } else {
            0nat
        }
    }
}

/// The store with the slot at `i`, if any, emptied.
pub open spec fn store_removed(store: Seq<TextPanelModel>, i: usize) -> Seq<TextPanelModel> {
    if i < store.len() {
        store.update(i as int, fresh_panel(PanelKind::Null))
    } else {
        store
    }
}

/// The last steps of deleting the active panel, once it is out of its
/// split: its contents leave the store; when only static panels are left
/// with contents, a new edit panel goes into the last split and becomes
/// active; otherwise `next` becomes active.
pub open spec fn delete_finish(a: AppStateModel, store: Seq<TextPanelModel>, store_index: usize, next: usize) -> (AppStateModel, Seq<TextPanelModel>) {
    let s2 = store_removed(store, store_index);
    if active_count(a.panels, s2) <= a.static_panels.len() {
        let last = (a.splits.len() - 1) as usize;
        let (a3, s3, idx) = add_panel_result(a, s2, last);
        (
            AppStateModel {
                splits: a3.splits.update(last as int, split_with_pushed(a3.splits[last as int], UserSplits::Panel(idx))),
                active_panel: idx,
                ..a3
            },
            s3,
        )
    } else {
        (AppStateModel { active_panel: next, ..a }, s2)
    }
}

/// The state after deleting the active panel: it leaves its split, a split
/// left empty leaves its parent, and the layout is reset (with a message)
/// wherever the layout does not hold together. Static panels stay.
pub open spec fn delete_result(a: AppStateModel, store: Seq<TextPanelModel>) -> (AppStateModel, Seq<TextPanelModel>) {
    match neighbour_panel(a, store, true) {
        Err(m) => {
            let (a1, s1) = reset_result(a, store);
            (AppStateModel { messages: a1.messages.push(m), ..a1 }, s1)
        },
        Ok(next) => if a.active_panel >= a.panels.len() {
            (
                with_message(
                    AppStateModel { active_panel: 1, ..a },
                    MessageChannel::ERROR,
                    "No active panel. Setting to be last panel."@,
                ),
                store,
            )
        } else {
            let lp = a.panels[a.active_panel as int];
            let sidx = lp.split_index as int;
            if a.static_panels.contains(lp.id) {
                (with_message(a, MessageChannel::INFO, "Cannot delete static panel."@), store)
            } else if lp.split_index >= a.splits.len() {
                reset_result(
                    with_message(a, MessageChannel::ERROR, "Active panels split doesn't exist. Resetting state."@),
                    store,
                )
            } else {
                match index_of(a.splits[sidx].panels, UserSplits::Panel(a.active_panel)) {
                    None => reset_result(
                        with_message(
                            a,
                            MessageChannel::ERROR,
                            "Active panel's split doesn't contain active panel. Resetting state."@,
                        ),
                        store,
                    ),
                    Some(i) => match take_out_of_split(a.splits, sidx, i) {
                        None => reset_result(
                            with_message(
                                a,
                                MessageChannel::ERROR,
                                "Split not found in parent when removing due to being empty. Resetting state."@,
                            ),
                            store,
                        ),
                        Some(splits) => delete_finish(AppStateModel { splits, ..a }, store, lp.panel_index, next),
                    },
                }
            }
        },
    }
}

/// The splits after the child at `i` leaves the split at `sidx`: a split
/// left empty is removed, and so is its entry in the first split that holds
/// it. `None` when that entry is not found, or is the first child of the
/// first split.
pub open spec fn take_out_of_split(splits: Seq<PanelSplitModel>, sidx: int, i: int) -> Option<Seq<PanelSplitModel>> {
    let rest = splits[sidx].panels.remove(i);
    let splits1 = splits.update(sidx, PanelSplitModel { panels: rest, ..splits[sidx] });
    if rest.len() == 0 {
        let splits2 = splits1.remove(sidx);
        match parent_of(splits2, sidx as usize) {
            Some((pi, ci)) => if pi == 0 && ci == 0 {
                None
            } else {
                Some(splits2.update(pi, PanelSplitModel { panels: splits2[pi].panels.remove(ci), ..splits2[pi] }))
            },
            None => None,
        }
    } else {
        Some(splits1)
    }
}

impl AppState {
    fn find_parent(&self, child: usize) -> (r: Option<(usize, usize)>)
        ensures
            match parent_of(self@.splits, child) {
                Some((pi, ci)) => r matches Some((p, c)) && p == pi && c == ci && 0 <= pi < self@.splits.len() && 0 <= ci < self@.splits[pi].panels.len(),
                None => r is None,
            },
    {
        let ghost rows = self@.splits.map_values(|sp: PanelSplitModel| sp.panels.contains(UserSplits::Split(child)));
        let mut i: usize = 0;
        while i < self.splits.len()
            invariant
                i <= self.splits@.len(),
                rows == self@.splits.map_values(|sp: PanelSplitModel| sp.panels.contains(UserSplits::Split(child))),
                forall|k: int| 0 <= k < i ==> rows[k] != true,
            decreases self.splits@.len() - i,
        {
            match find_child_split(&self.splits[i].panels, child) {
                Some(j) => {
                    proof {
                        assert(self@.splits[i as int].panels == self.splits@[i as int].panels@);
                        assert(self@.splits[i as int].panels[j as int] == UserSplits::Split(child));
                        assert(rows[i as int] == true);
                        lemma_index_of(rows, true, i as int);
                    }
                    return Some((i, j));
                },
                None => {
                    proof {
                        assert(self@.splits[i as int].panels == self.splits@[i as int].panels@);
                        if self@.splits[i as int].panels.contains(UserSplits::Split(child)) {
                            let w = choose|w: int| 0 <= w < self@.splits[i as int].panels.len() && self@.splits[i as int].panels[w] == UserSplits::Split(child);
                            assert(exists|x: int| 0 <= x < self.splits@[i as int].panels@.len() && self.splits@[i as int].panels@[x] == UserSplits::Split(child));
                        }
                    }
                },
            }
            i = i + 1;
        }
        None
    }

    fn remove_split_entry(&mut self, active_split: usize, index: usize) -> (empty: bool)
        requires
            active_split < old(self)@.splits.len(),
            index < old(self)@.splits[active_split as int].panels.len(),
        ensures
            ({
                let splits = old(self)@.splits;
                let rest = splits[active_split as int].panels.remove(index as int);
                &&& final(self)@ == (AppStateModel {
                    splits: splits.update(active_split as int, PanelSplitModel { panels: rest, ..splits[active_split as int] }),
                    ..old(self)@
                })
                &&& empty == (rest.len() == 0)
            }),
    {
        let ghost a0 = self@;
        self.splits[active_split].panels.remove(index);
        proof {
            assert(self@.splits =~= a0.splits.update(
                active_split as int,
                PanelSplitModel { panels: a0.splits[active_split as int].panels.remove(index as int), ..a0.splits[active_split as int] },
            ));
        }
        self.splits[active_split].panels.len() == 0
    }

    fn remove_empty_split(&mut self, active_split: usize) -> (ok: bool)
        requires
            active_split < old(self)@.splits.len(),
        ensures
            ({
                let splits2 = old(self)@.splits.remove(active_split as int);
                match parent_of(splits2, active_split) {
                    Some((pi, ci)) => if pi == 0 && ci == 0 {
                        !ok && final(self)@ == (AppStateModel { splits: final(self)@.splits, ..old(self)@ })
                    } else {
                        &&& ok
                        &&& final(self)@ == (AppStateModel {
                            splits: splits2.update(pi, PanelSplitModel { panels: splits2[pi].panels.remove(ci), ..splits2[pi] }),
                            ..old(self)@
                        })
                        &&& final(self)@.splits.len() > 0
                    },
                    None => !ok && final(self)@ == (AppStateModel { splits: final(self)@.splits, ..old(self)@ }),
                }
            }),
    {
        let ghost a0 = self@;
        self.splits.remove(active_split);
        proof {
            assert(self@.splits =~= a0.splits.remove(active_split as int));
        }
        let found = self.find_parent(active_split);
        let mut parent_index: usize = 0;
        let mut child_index: usize = 0;
        match found {
            Some((p, c)) => {
                parent_index = p;
                child_index = c;
            },
            None => {},
        }
        proof {
            match parent_of(self@.splits, active_split) {
                Some((pi, ci)) => {
                    assert(parent_index == pi && child_index == ci);
                },
                None => {},
            }
        }
        if parent_index == 0 && child_index == 0 {
            return false;
        }
        let ghost a1 = self@;
        proof {
            assert(found is Some);
            assert(a1.splits[parent_index as int] == self.splits@[parent_index as int]@);
        }
        self.splits[parent_index].panels.remove(child_index);
        proof {
            assert(self@.splits =~= a1.splits.update(
                parent_index as int,
                PanelSplitModel { panels: a1.splits[parent_index as int].panels.remove(child_index as int), ..a1.splits[parent_index as int] },
            ));
        }
        true
    }

    fn take_out_of_split(&mut self, active_split: usize, index: usize) -> (ok: bool)
        requires
            active_split < old(self)@.splits.len(),
            index < old(self)@.splits[active_split as int].panels.len(),
        ensures
            match take_out_of_split(old(self)@.splits, active_split as int, index as int) {
                Some(splits) => ok && final(self)@ == (AppStateModel { splits, ..old(self)@ }) && splits.len() > 0,
                None => !ok && final(self)@ == (AppStateModel { splits: final(self)@.splits, ..old(self)@ }),
            },
    {
        let empty = self.remove_split_entry(active_split, index);
        if empty {
            self.remove_empty_split(active_split)
        } else {
            true
        }
    }

    fn count_active(&self, panels: &Panels) -> (r: usize)
        ensures
            r == active_count(self@.panels, panels@),
    {
        let mut count: usize = 0;
        let mut i: usize = 0;
        while i < self.panels.len()
            invariant
                i <= self.panels@.len(),
                count == active_count(self@.panels.take(i as int), panels@),
                count <= i,
            decreases self.panels@.len() - i,
        {
            proof {
                assert(self@.panels.take(i + 1).drop_last() =~= self@.panels.take(i as int));
            }
            match panels.get(self.panels[i].panel_index) {
                Some(p) => {
                    if p.kind() != PanelKind::Null {
                        count = count + 1;
                    }
                },
                None => {},
            }
            i = i + 1;
        }
        proof {
            assert(self@.panels.take(self@.panels.len() as int) =~= self@.panels);
        }
        count
    }

    /// Deletes the active panel; see `delete_result`.
    pub fn delete_active_panel(&mut self, _code: KeyCode, panels: &mut Panels)
        requires
            !(panel_order(old(self)@, old(panels)@) is Stuck),
        ensures
            (final(self)@, final(panels)@) == delete_result(old(self)@, old(panels)@),
    {
        let next = self.next_panel_index(panels);
        let next_active_panel = match next {
            Err(e) => {
                self.reset(panels);
                self.push_message(e);
                return;
            },
            Ok(n) => n,
        };
        if self.active_panel >= self.panels.len() {
            self.active_panel = 1;
            self.push_message(Message::error("No active panel. Setting to be last panel."));
            return;
        }
        let lp = self.panels[self.active_panel];
        let active_split = lp.split_index;
        if contains_char(&self.static_panels, lp.id) {
            self.push_message(Message::info("Cannot delete static panel."));
            return;
        }
        let local_current_panel = self.active_panel;
        if active_split >= self.splits.len() {
            self.push_message(Message::error("Active panels split doesn't exist. Resetting state."));
            self.reset(panels);
            return;
        }
        let index = match find_child_panel(&self.splits[active_split].panels, local_current_panel) {
            Some(i) => i,
            None => {
                self.push_message(
                    Message::error("Active panel's split doesn't contain active panel. Resetting state."),
                );
                self.reset(panels);
                return;
            },
        };
        if !self.take_out_of_split(active_split, index) {
            self.push_message(
                Message::error("Split not found in parent when removing due to being empty. Resetting state."),
            );
            self.reset(panels);
            return;
        }
        self.finish_delete(lp.panel_index, next_active_panel, panels);
    }

    fn finish_delete(&mut self, store_index: usize, next_active_panel: usize, panels: &mut Panels)
        requires
            old(self)@.splits.len() > 0,
        ensures
            (final(self)@, final(panels)@) == delete_finish(old(self)@, old(panels)@, store_index, next_active_panel),
    {
        panels.remove(store_index);
        let count = self.count_active(panels);
        if count <= self.static_panels.len() {
            let last = self.splits.len() - 1;
            let index = self.add_panel(last, panels);
            let ghost a3 = self@;
            self.splits[last].panels.push(UserSplits::Panel(index));
            proof {
                assert(self@.splits =~= a3.splits.update(last as int, split_with_pushed(a3.splits[last as int], UserSplits::Panel(index))));
            }
            self.active_panel = index;
        } else {
            self.active_panel = next_active_panel;
        }
    }
}

/// A request for outside work on the panel at `panel_index` of the store.
pub struct PanelFileRequest {
    pub panel_index: usize,
    pub request: FileRequest,
}

pub open spec fn file_requests_view(r: Seq<PanelFileRequest>) -> Seq<(usize, FileRequestModel)> {
    r.map_values(|x: PanelFileRequest| (x.panel_index, x.request@))
}

/// The outcome of handling change requests.
pub enum ChangeOutcome {
    /// Handling goes on, with the state, the store, and the file requests
    /// gathered so far.
    Continue(AppStateModel, Seq<TextPanelModel>, Seq<(usize, FileRequestModel)>),
    /// Handling stopped early.
    Stop(AppStateModel, Seq<TextPanelModel>, Seq<(usize, FileRequestModel)>),
    /// Handling cannot go on: a panel it must show, hide, replace or hand
    /// input to is missing, the application is not waiting for the panel
    /// type it was given, or that type is unknown.
    Panics,
}

/// Whether the prompt panel's contents are in the store.
pub open spec fn prompt_ok(a: AppStateModel, store: Seq<TextPanelModel>) -> bool {
    a.panels.len() > 0 && a.panels[0].panel_index < store.len()
}

/// The store with the visibility of the prompt panel set.
pub open spec fn prompt_visible(a: AppStateModel, store: Seq<TextPanelModel>, visible: bool) -> Seq<TextPanelModel> {
    let i = a.panels[0].panel_index as int;
    store.update(i, TextPanelModel { visible, ..store[i] })
}

/// Whether `s` names a panel type that can be made.
pub open spec fn known_type(s: Seq<char>) -> bool {
    s == NULL_PANEL_TYPE_ID@ || s == EDIT_PANEL_TYPE_ID@ || s == MESSAGE_PANEL_TYPE_ID@
}

/// The kind of the panel type named `s`.
pub open spec fn named_kind(s: Seq<char>) -> PanelKind {
    if s == NULL_PANEL_TYPE_ID@ {
        PanelKind::Null
    } else if s == EDIT_PANEL_TYPE_ID@ {
        PanelKind::Edit
    } else {
        PanelKind::Messages
    }
}

/// Asking for the new type of the active panel: the prompt panel shows and
/// becomes active, waiting for the type.
pub open spec fn change_type_result(a: AppStateModel, store: Seq<TextPanelModel>) -> (AppStateModel, Seq<TextPanelModel>) {
    (
        AppStateModel {
            state: State::WaitingPanelType(a.active_panel),
            active_panel: 0,
            input_request: Some(InputRequestModel {
                prompt: "Panel Type"@,
                completer: Some(CompleterKind::Panels),
                requestor_id: TOP_REQUESTOR_ID,
            }),
            ..a
        },
        prompt_visible(a, store, true),
    )
}

/// Handling one change request, made while the panel with id `active_id`
/// was active.
pub open spec fn after_change(a: AppStateModel, store: Seq<TextPanelModel>, active_id: char, ch: StateChangeRequest) -> ChangeOutcome {
    match ch {
        StateChangeRequest::Input(prompt, completer) => if a.static_panels.contains(active_id) {
            ChangeOutcome::Stop(
                with_message(a, MessageChannel::ERROR, "Input panel cannot make input request."@),
                store,
                Seq::empty(),
            )
        } else if !prompt_ok(a, store) {
            ChangeOutcome::Panics
        } else {
            ChangeOutcome::Continue(
                AppStateModel {
                    input_request: Some(InputRequestModel { prompt: prompt@, completer, requestor_id: a.active_panel }),
                    active_panel: 0,
                    ..a
                },
                prompt_visible(a, store, true),
                Seq::empty(),
            )
        },
        StateChangeRequest::InputComplete(input) => match a.input_request {
            None => ChangeOutcome::Stop(
                with_message(a, MessageChannel::ERROR, "No active input request."@),
                store,
                Seq::empty(),
            ),
            Some(req) => {
                let a1 = AppStateModel { input_request: None, ..a };
                if req.requestor_id == TOP_REQUESTOR_ID {
                    match a.state {
                        State::WaitingPanelType(f) => if f < a.panels.len() && a.panels[f as int].panel_index
                            < store.len() && known_type(input@) && prompt_ok(a, store) {
                            let s1 = store.update(a.panels[f as int].panel_index as int, fresh_panel(named_kind(input@)));
                            ChangeOutcome::Continue(
                                AppStateModel { active_panel: f, state: State::Normal, ..a1 },
                                prompt_visible(a, s1, false),
                                Seq::empty(),
                            )
                        } else {
                            ChangeOutcome::Panics
                        },
                        State::Normal => ChangeOutcome::Panics,
                    }
                } else if req.requestor_id >= a.panels.len() {
                    ChangeOutcome::Stop(
                        with_message(a1, MessageChannel::ERROR, "Requesting panel doesn't exist."@),
                        store,
                        Seq::empty(),
                    )
                } else {
                    let pi = a.panels[req.requestor_id as int].panel_index;
                    if pi < store.len() && prompt_ok(a, store) {
                        ChangeOutcome::Continue(
                            AppStateModel { active_panel: req.requestor_id, ..a1 },
                            prompt_visible(a, store, false),
                            match input_request_for(store[pi as int], input@) {
                                Some(r) => seq![(pi, r)],
                                None => Seq::empty(),
                            },
                        )
                    } else {
                        ChangeOutcome::Panics
                    }
                }
            },
        },
        StateChangeRequest::Message(m) => ChangeOutcome::Continue(
            AppStateModel { messages: a.messages.push(m@), ..a },
            store,
            Seq::empty(),
        ),
    }
}

/// After each change, handling checks again that a panel is active.
pub open spec fn active_check(a: AppStateModel) -> AppStateModel {
    if a.active_panel < a.panels.len() {
        a
    } else {
        with_message(a, MessageChannel::ERROR, "No active panel for change request."@)
    }
}

/// Handling the changes from the `i`th on.
pub open spec fn handle_from(
    a: AppStateModel,
    store: Seq<TextPanelModel>,
    active_id: char,
    changes: Seq<StateChangeRequest>,
    i: int,
    reqs: Seq<(usize, FileRequestModel)>,
) -> ChangeOutcome
    decreases changes.len() - i,
{
    if i < 0 || i >= changes.len() {
        ChangeOutcome::Continue(a, store, reqs)
    } else {
        match after_change(a, store, active_id, changes[i]) {
            ChangeOutcome::Continue(a1, s1, r1) => handle_from(active_check(a1), s1, active_id, changes, i + 1, reqs + r1),
            ChangeOutcome::Stop(a1, s1, r1) => ChangeOutcome::Stop(a1, s1, reqs + r1),
            ChangeOutcome::Panics => ChangeOutcome::Panics,
        }
    }
}

/// Handling a list of change requests made by the active panel, in order;
/// nothing is handled when no panel is active.
pub open spec fn handle_result(a: AppStateModel, store: Seq<TextPanelModel>, changes: Seq<StateChangeRequest>) -> ChangeOutcome {
    if a.active_panel >= a.panels.len() {
        ChangeOutcome::Stop(
            with_message(a, MessageChannel::ERROR, "No active panel for change request."@),
            store,
            Seq::empty(),
        )
    } else {
        handle_from(a, store, a.panels[a.active_panel as int].id, changes, 0, Seq::empty())
    }
}

impl AppState {
    fn set_prompt_visible(&self, panels: &mut Panels, visible: bool)
        requires
            prompt_ok(self@, old(panels)@),
        ensures
            final(panels)@ == prompt_visible(self@, old(panels)@, visible),
    {
        let pi = self.panels[0].panel_index;
        match panels.get_mut(pi) {
            Some(panel) => {
                if visible {
                    panel.show();
                } else {
                    panel.conceal();
                }
            },
            None => {},
        }
    }

    /// Whether a change request can be handled without the failures that
    /// `after_change` calls `Panics`: the prompt panel, the panel waiting for
    /// a type, or the requesting panel missing from the store, or an unknown
    /// panel type handed in.
    pub fn change_allowed(&self, panels: &Panels, active_panel_id: char, change: &StateChangeRequest) -> (r: bool)
        ensures
            r == !(after_change(self@, panels@, active_panel_id, *change) is Panics),
    {
        match change {
            StateChangeRequest::Input(_, _) => {
                contains_char(&self.static_panels, active_panel_id) || self.prompt_available(panels)
            },
            StateChangeRequest::InputComplete(input) => match &self.input_request {
                None => true,
                Some(req) => {
                    let index = req.requestor_id;
                    if index == TOP_REQUESTOR_ID {
                        match self.state {
                            State::WaitingPanelType(f) => {
                                f < self.panels.len() && self.panels[f].panel_index < panels.len()
                                    && PanelFactory::panel(input.as_str()).is_some() && self.prompt_available(panels)
                            },
                            State::Normal => false,
                        }
                    } else if index >= self.panels.len() {
                        true
                    } else {
                        self.panels[index].panel_index < panels.len() && self.prompt_available(panels)
                    }
                },
            },
            StateChangeRequest::Message(_) => true,
        }
    }

    /// Handles one change request made while the panel with id
    /// `active_panel_id` was active, adding the file work it asks for to
    /// `requests`; whether handling goes on. See `after_change`.
    pub fn handle_change(&mut self, change: StateChangeRequest, panels: &mut Panels, active_panel_id: char, requests: &mut Vec<PanelFileRequest>) -> (cont: bool)
        requires
            !(after_change(old(self)@, old(panels)@, active_panel_id, change) is Panics),
        ensures
            match after_change(old(self)@, old(panels)@, active_panel_id, change) {
                ChangeOutcome::Continue(a1, s1, r1) => cont && final(self)@ == a1 && final(panels)@ == s1
                    && file_requests_view(final(requests)@) == file_requests_view(old(requests)@) + r1,
                ChangeOutcome::Stop(a1, s1, r1) => !cont && final(self)@ == a1 && final(panels)@ == s1
                    && file_requests_view(final(requests)@) == file_requests_view(old(requests)@) + r1,
                ChangeOutcome::Panics => false,
            },
    {
        let ghost reqs0 = file_requests_view(requests@);
        match change {
            StateChangeRequest::Input(prompt, completer) => {
                if contains_char(&self.static_panels, active_panel_id) {
                    self.push_message(Message::error("Input panel cannot make input request."));
                    proof {
                        assert(file_requests_view(requests@) =~= reqs0 + Seq::empty());
                    }
                    return false;
                }
                self.input_request = Some(InputRequest { prompt, auto_completer: completer, requestor_id: self.active_panel });
                self.set_prompt_visible(panels, true);
                self.active_panel = 0;
                proof {
                    assert(file_requests_view(requests@) =~= reqs0 + Seq::empty());
                }
                true
            },
            StateChangeRequest::InputComplete(input) => {
                let index = match &self.input_request {
                    Some(request) => request.requestor_id,
                    None => {
                        self.push_message(Message::error("No active input request."));
                        proof {
                            assert(file_requests_view(requests@) =~= reqs0 + Seq::empty());
                        }
                        return false;
                    },
                };
                self.input_request = None;
                if index == TOP_REQUESTOR_ID {
                    match self.state {
                        State::WaitingPanelType(for_panel) => {
                            let pi = self.panels[for_panel].panel_index;
                            let ghost store0 = panels@;
                            match PanelFactory::panel(input.as_str()) {
                                Some(new) => {
                                    let ghost nv = new@;
                                    match panels.get_mut(pi) {
                                        Some(panel) => {
                                            *panel = new;
                                        },
                                        None => {},
                                    }
                                    proof {
                                        lemma_type_ids_distinct();
                                        assert(nv == fresh_panel(named_kind(input@)));
                                        assert(panels@ =~= store0.update(pi as int, nv));
                                    }
                                },
                                None => {},
                            }
                            self.active_panel = for_panel;
                            self.state = State::Normal;
                        },
                        State::Normal => {},
                    }
                    proof {
                        assert(file_requests_view(requests@) =~= reqs0 + Seq::empty());
                    }
                } else {
                    if index >= self.panels.len() {
                        self.push_message(Message::error("Requesting panel doesn't exist."));
                        proof {
                            assert(file_requests_view(requests@) =~= reqs0 + Seq::empty());
                        }
                        return false;
                    }
                    let pi = self.panels[index].panel_index;
                    let ghost store0 = panels@;
                    let ghost input_view = input@;
                    match panels.get_mut(pi) {
                        Some(panel) => {
                            match panel.receive_input(input) {
                                Some(request) => {
                                    requests.push(PanelFileRequest { panel_index: pi, request });
                                },
                                None => {},
                            }
                        },
                        None => {},
                    }
                    proof {
                        assert(panels@ =~= store0);
                        let r1 = match input_request_for(old(panels)@[pi as int], input_view) {
                            Some(r) => seq![(pi, r)],
                            None => Seq::empty(),
                        };
                        assert(file_requests_view(requests@) =~= reqs0 + r1);
                    }
                    self.active_panel = index;
                }
                self.set_prompt_visible(panels, false);
                true
            },
            StateChangeRequest::Message(m) => {
                self.push_message(m);
                proof {
                    assert(file_requests_view(requests@) =~= reqs0 + Seq::empty());
                }
                true
            },
        }
    }

    /// Handles the change requests that the active panel made, in order, and
    /// gives the outside work that panels asked for; see `handle_result`.
    /// The file work of the whole batch is handed back at the end, after all
    /// the requests were handled; a program that does each piece of file
    /// work before the next request, and handles what it reports first,
    /// calls `handle_change` for each request instead.
    pub fn handle_changes(&mut self, changes: Vec<StateChangeRequest>, panels: &mut Panels) -> (r: Vec<PanelFileRequest>)
        requires
            !(handle_result(old(self)@, old(panels)@, changes@) is Panics),
        ensures
            match handle_result(old(self)@, old(panels)@, changes@) {
                ChangeOutcome::Continue(a1, s1, r1) => final(self)@ == a1 && final(panels)@ == s1 && file_requests_view(r@) == r1,
                ChangeOutcome::Stop(a1, s1, r1) => final(self)@ == a1 && final(panels)@ == s1 && file_requests_view(r@) == r1,
                ChangeOutcome::Panics => false,
            },
    {
        let mut requests: Vec<PanelFileRequest> = Vec::new();
        if self.active_panel >= self.panels.len() {
            self.push_message(Message::error("No active panel for change request."));
            proof {
                assert(file_requests_view(requests@) =~= Seq::<(usize, FileRequestModel)>::empty());
            }
            return requests;
        }
        let active_panel_id = self.panels[self.active_panel].id;
        let ghost orig = changes@;
        let ghost a0 = self@;
        let ghost s0 = panels@;
        let mut changes = changes;
        let n = changes.len();
        let mut i: usize = 0;
        proof {
            assert(file_requests_view(requests@) =~= Seq::<(usize, FileRequestModel)>::empty());
        }
        let mut stopped = false;
        while i < n && !stopped
            invariant
                n == orig.len(),
                changes@.len() == n,
                i <= n,
                forall|k: int| i <= k < n ==> changes@[k] == orig[k],
                !(handle_result(a0, s0, orig) is Panics),
                a0 == old(self)@,
                s0 == old(panels)@,
                stopped ==> handle_result(a0, s0, orig) == ChangeOutcome::Stop(self@, panels@, file_requests_view(requests@)),
                !stopped ==> handle_result(a0, s0, orig) == handle_from(self@, panels@, active_panel_id, orig, i as int, file_requests_view(requests@)),
            decreases n - i,
        {
            let mut change = StateChangeRequest::Message(Message::error(""));
            changes.set_and_swap(i, &mut change);
            proof {
                assert(change == orig[i as int]);
            }
            let ghost reqs_before = file_requests_view(requests@);
            proof {
                assert(handle_from(self@, panels@, active_panel_id, orig, i as int, reqs_before) == match after_change(self@, panels@, active_panel_id, orig[i as int]) {
                    ChangeOutcome::Continue(a1, s1, r1) => handle_from(active_check(a1), s1, active_panel_id, orig, i + 1, reqs_before + r1),
                    ChangeOutcome::Stop(a1, s1, r1) => ChangeOutcome::Stop(a1, s1, reqs_before + r1),
                    ChangeOutcome::Panics => ChangeOutcome::Panics,
                });
            }
            let cont = self.handle_change(change, panels, active_panel_id, &mut requests);
            if cont {
                // Handling goes on only while a panel is active.
                if self.active_panel >= self.panels.len() {
                    self.push_message(Message::error("No active panel for change request."));
                }
            } else {
                stopped = true;
            }
            i = i + 1;
        }
        requests
    }

    /// Asks the user for the new type of the active panel, in the prompt
    /// panel, which becomes active.
    pub fn change_active_panel_type(&mut self, _code: KeyCode, panels: &mut Panels)
        requires
            prompt_ok(old(self)@, old(panels)@),
        ensures
            (final(self)@, final(panels)@) == change_type_result(old(self)@, old(panels)@),
    {
        self.state = State::WaitingPanelType(self.active_panel);
        self.active_panel = 0;
        self.input_request = Some(InputRequest {
            prompt: "Panel Type".to_owned(),
            requestor_id: TOP_REQUESTOR_ID,
            auto_completer: Some(CompleterKind::Panels),
        });
        self.set_prompt_visible(panels, true);
    }
}

/// A new panel's id is one that no panel has, when one of the offered ids
/// is free.
pub proof fn lemma_first_available_free(lps: Seq<LayoutPanel>, k: int)
    requires
        0 <= k < 52,
        !id_used(lps, id_option(k)),
    ensures
        !id_used(lps, first_available_id(lps)),
        first_available_id(lps) != '\0',
{
    let least = choose|m: int|
        0 <= m < 52 && !id_used(lps, #[trigger] id_option(m)) && forall|j: int|
            0 <= j < m ==> id_used(lps, #[trigger] id_option(j));
    lemma_least_free(lps, k);
    assert(0 <= least < 52 && !id_used(lps, id_option(least)));
}

proof fn lemma_least_free(lps: Seq<LayoutPanel>, k: int)
    requires
        0 <= k < 52,
        !id_used(lps, id_option(k)),
    ensures
        exists|m: int|
            0 <= m < 52 && !id_used(lps, #[trigger] id_option(m)) && forall|j: int|
                0 <= j < m ==> id_used(lps, #[trigger] id_option(j)),
    decreases k,
{
    if exists|j: int| 0 <= j < k && !id_used(lps, #[trigger] id_option(j)) {
        let j = choose|j: int| 0 <= j < k && !id_used(lps, #[trigger] id_option(j));
        lemma_least_free(lps, j);
    } else {
        assert(0 <= k < 52 && !id_used(lps, id_option(k)) && forall|j: int|
            0 <= j < k ==> id_used(lps, #[trigger] id_option(j)));
    }
}

/// Three panels pushed one after another each land in a slot of the final
/// store, which holds them there.
proof fn lemma_three_pushes(store: Seq<TextPanelModel>, p0: TextPanelModel, p1: TextPanelModel, p2: TextPanelModel)
    requires
        p0.kind != PanelKind::Null,
        p1.kind != PanelKind::Null,
    ensures
        ({
            let (i0, s1) = pushed(store, p0);
            let (i1, s2) = pushed(s1, p1);
            let (i2, s3) = pushed(s2, p2);
            &&& 0 <= i0 < s3.len() && s3[i0] == p0
            &&& 0 <= i1 < s3.len() && s3[i1] == p1
            &&& 0 <= i2 < s3.len() && s3[i2] == p2
            &&& s3.len() <= store.len() + 3
        }),
{
    let (i0, s1) = pushed(store, p0);
    let (i1, s2) = pushed(s1, p1);
    lemma_pushed(store, p0);
    lemma_pushed(s1, p1);
    lemma_pushed(s2, p2);
    assert(s2[i0] == s1[i0]);
}

/// The panels that a reset lays out are in the store, and none is an empty
/// slot.
proof fn lemma_reset_store(a: AppStateModel, store: Seq<TextPanelModel>)
    requires
        store.len() + 3 <= usize::MAX,
    ensures
        ({
            let (a1, st) = reset_result(a, store);
            &&& a1.panels.len() == 3
            &&& forall|k: int| 0 <= k < 3 ==> (#[trigger] a1.panels[k]).panel_index < st.len()
                && st[a1.panels[k].panel_index as int].kind != PanelKind::Null
        }),
{
    let p0 = fresh_panel(PanelKind::Input);
    let p1 = fresh_panel(PanelKind::Edit);
    let p2 = fresh_panel(PanelKind::Messages);
    lemma_three_pushes(store, p0, p1, p2);
    let (i0, s1) = pushed(store, p0);
    let (i1, s2) = pushed(s1, p1);
    let (i2, s3) = pushed(s2, p2);
    let (a1, st) = reset_result(a, store);
    assert(st == s3);
    assert(a1.panels[0].panel_index == i0);
    assert(a1.panels[1].panel_index == i1);
    assert(a1.panels[2].panel_index == i2);
}

proof fn lemma_three_panel_order(a1: AppStateModel, st: Seq<TextPanelModel>)
    requires
        a1.splits == seq![
            PanelSplitModel {
                direction: Direction::Vertical,
                panels: seq![UserSplits::Panel(0), UserSplits::Panel(1), UserSplits::Panel(2)],
            },
        ],
        a1.panels.len() == 3,
        forall|k: int| 0 <= k < 3 ==> (#[trigger] a1.panels[k]).panel_index < st.len()
            && st[a1.panels[k].panel_index as int].kind != PanelKind::Null,
    ensures
        panel_order(a1, st) == OrderOutcome::Done(seq![0usize, 1usize, 2usize]),
{
    let all = seq![0usize, 1usize, 2usize];
    assert(a1.panels[0].panel_index < st.len());
    assert(a1.panels[1].panel_index < st.len());
    assert(a1.panels[2].panel_index < st.len());
    assert(order_children(a1, st, 0, 3, all, 1) == OrderOutcome::Done(all));
    assert(seq![0usize, 1usize].push(2usize) =~= all);
    assert(order_children(a1, st, 0, 2, seq![0usize, 1usize], 1) == OrderOutcome::Done(all));
    assert(seq![0usize].push(1usize) =~= seq![0usize, 1usize]);
    assert(order_children(a1, st, 0, 1, seq![0usize], 1) == OrderOutcome::Done(all));
    assert(Seq::<usize>::empty().push(0usize) =~= seq![0usize]);
    assert(order_children(a1, st, 0, 0, Seq::empty(), 1) == OrderOutcome::Done(all));
}

/// After a reset the prompt panel's contents are in the store, and the
/// panels can be walked in order: the prompt, the edit and the messages
/// panel.
pub proof fn lemma_reset_ready(a: AppStateModel, store: Seq<TextPanelModel>)
    requires
        store.len() + 3 <= usize::MAX,
    ensures
        prompt_ok(reset_result(a, store).0, reset_result(a, store).1),
        panel_order(reset_result(a, store).0, reset_result(a, store).1) == OrderOutcome::Done(seq![0usize, 1usize, 2usize]),
{
    lemma_reset_store(a, store);
    let (a1, st) = reset_result(a, store);
    assert(a1.panels[0].panel_index < st.len());
    lemma_three_panel_order(a1, st);
}

/// An input request made by the active panel and then completed hands the
/// input to that panel: it is active again, and no request is pending.
pub proof fn lemma_input_round_trip(
    a: AppStateModel,
    store: Seq<TextPanelModel>,
    prompt: String,
    completer: Option<CompleterKind>,
    input: String,
)
    requires
        a.active_panel < a.panels.len(),
        a.active_panel != TOP_REQUESTOR_ID,
        !a.static_panels.contains(a.panels[a.active_panel as int].id),
        prompt_ok(a, store),
        a.panels[a.active_panel as int].panel_index < store.len(),
    ensures
        handle_result(
            a,
            store,
            seq![StateChangeRequest::Input(prompt, completer), StateChangeRequest::InputComplete(input)],
        ) matches ChangeOutcome::Continue(a2, _, _) && a2.active_panel == a.active_panel && a2.input_request is None,
{
    let changes = seq![StateChangeRequest::Input(prompt, completer), StateChangeRequest::InputComplete(input)];
    let id = a.panels[a.active_panel as int].id;
    reveal_with_fuel(handle_from, 3);
    let a1 = AppStateModel {
        input_request: Some(InputRequestModel { prompt: prompt@, completer, requestor_id: a.active_panel }),
        active_panel: 0,
        ..a
    };
    let s1 = prompt_visible(a, store, true);
    assert(after_change(a, store, id, changes[0]) == ChangeOutcome::Continue(a1, s1, Seq::empty()));
    assert(active_check(a1) == a1);
    assert(s1.len() == store.len());
    assert(prompt_ok(a1, s1));
    match after_change(a1, s1, id, changes[1]) {
        ChangeOutcome::Continue(a2, s2, r2) => {
            assert(a2.active_panel == a.active_panel);
            assert(active_check(a2) == a2);
        },
        _ => {
            assert(false);
        },
    }
}


/// Walking the panels depends only on the layout: the splits and the layout
/// panels.
proof fn lemma_order_split_layout(a: AppStateModel, b: AppStateModel, store: Seq<TextPanelModel>, split: int, acc: Seq<usize>, fuel: nat)
    requires
        a.splits == b.splits,
        a.panels == b.panels,
    ensures
        order_split(a, store, split, acc, fuel) == order_split(b, store, split, acc, fuel),
    decreases fuel, 0nat, 0nat,
{
    if fuel > 0 && 0 <= split < a.splits.len() {
        lemma_order_children_layout(a, b, store, split, 0, acc, (fuel - 1) as nat);
    }
}

proof fn lemma_order_children_layout(a: AppStateModel, b: AppStateModel, store: Seq<TextPanelModel>, split: int, k: int, acc: Seq<usize>, fuel: nat)
    requires
        a.splits == b.splits,
        a.panels == b.panels,
    ensures
        order_children(a, store, split, k, acc, fuel) == order_children(b, store, split, k, acc, fuel),
    decreases fuel, 1nat, (if 0 <= split < a.splits.len() && 0 <= k < a.splits[split].panels.len() { a.splits[split].panels.len() - k } else { 0 }) as nat,
{
    if 0 <= split < a.splits.len() && 0 <= k < a.splits[split].panels.len() {
        match a.splits[split].panels[k] {
            UserSplits::Panel(pi) => {
                if pi < a.panels.len() && a.panels[pi as int].panel_index < store.len() {
                    if store[a.panels[pi as int].panel_index as int].kind == PanelKind::Null {
                        lemma_order_children_layout(a, b, store, split, k + 1, acc, fuel);
                    } else {
                        lemma_order_children_layout(a, b, store, split, k + 1, acc.push(pi), fuel);
                    }
                }
            },
            UserSplits::Split(si) => {
                lemma_order_split_layout(a, b, store, si as int, acc, fuel);
                match order_split(a, store, si as int, acc, fuel) {
                    OrderOutcome::Done(acc2) => {
                        lemma_order_children_layout(a, b, store, split, k + 1, acc2, fuel);
                    },
                    _ => {},
                }
            },
        }
    }
}

/// Moving to the previous panel undoes moving to the next one, when the
/// walk lists the active panel and lists no panel twice.
pub proof fn lemma_previous_undoes_next_panel(a: AppStateModel, store: Seq<TextPanelModel>, order: Seq<usize>)
    requires
        panel_order(a, store) == OrderOutcome::Done(order),
        order.no_duplicates(),
        order.contains(a.active_panel),
    ensures
        neighbour_panel(panel_change_result(a, neighbour_panel(a, store, true)), store, false) == Ok::<usize, MessageModel>(a.active_panel),
{
    let i = choose|i: int| 0 <= i < order.len() && order[i] == a.active_panel;
    assert forall|j: int| i < j < order.len() implies order[j] != a.active_panel by {
        assert(order[i] == a.active_panel);
    }
    lemma_last_index_of(order, a.active_panel, i);
    let j = if i + 1 >= order.len() { 0 } else { i + 1 };
    let next = order[j];
    assert(neighbour_panel(a, store, true) == Ok::<usize, MessageModel>(next));
    let a1 = AppStateModel { active_panel: next, ..a };
    assert(panel_change_result(a, neighbour_panel(a, store, true)) == a1);
    lemma_order_split_layout(a1, a, store, 0, Seq::empty(), (a.splits.len() + 1) as nat);
    assert(panel_order(a1, store) == OrderOutcome::Done(order));
    assert forall|m: int| j < m < order.len() implies order[m] != next by {
        assert(order[j] == next);
    }
    lemma_last_index_of(order, next, j);
}

/// Moving to the next panel goes to the one after the active panel in panel
/// order, from the last back to the first; moving to the previous one goes
/// the other way. With two panels or more, either move leaves the active
/// panel.
pub proof fn lemma_neighbour_cycles(a: AppStateModel, store: Seq<TextPanelModel>, order: Seq<usize>, i: int)
    requires
        panel_order(a, store) == OrderOutcome::Done(order),
        order.no_duplicates(),
        0 <= i < order.len(),
        order[i] == a.active_panel,
    ensures
        neighbour_panel(a, store, true) == Ok::<usize, MessageModel>(order[(i + 1) % (order.len() as int)]),
        neighbour_panel(a, store, false) == Ok::<usize, MessageModel>(order[(i + order.len() - 1) % (order.len() as int)]),
        order.len() >= 2 ==> neighbour_panel(a, store, true) != Ok::<usize, MessageModel>(a.active_panel),
        order.len() >= 2 ==> neighbour_panel(a, store, false) != Ok::<usize, MessageModel>(a.active_panel),
{
    let n = order.len() as int;
    assert forall|j: int| i < j < order.len() implies order[j] != a.active_panel by {
        assert(order[i] == a.active_panel);
    }
    lemma_last_index_of(order, a.active_panel, i);
    if i + 1 < n {
        assert((i + 1) % n == i + 1) by (nonlinear_arith) requires 0 <= i + 1 < n;
    } else {
        assert((i + 1) % n == 0) by (nonlinear_arith) requires i + 1 == n, n > 0;
    }
    if i == 0 {
        assert((n - 1) % n == n - 1) by (nonlinear_arith) requires n > 0;
    } else {
        assert((i + n - 1) % n == i - 1) by (nonlinear_arith) requires 0 < i < n;
    }
    if n >= 2 {
        let nx = if i + 1 >= n { 0 } else { i + 1 };
        let pv = if i == 0 { n - 1 } else { i - 1 };
        assert(nx != i);
        assert(pv != i);
        assert(order[nx] != order[i]);
        assert(order[pv] != order[i]);
    }
}

/// Whether a character is an ASCII letter, lower or capital.
pub open spec fn is_ascii_letter(c: char) -> bool {
    ('a' <= c && c <= 'z') || ('A' <= c && c <= 'Z')
}

/// The ids offered for new panels are the 52 ASCII letters, each once.
pub proof fn lemma_id_options_are_letters()
    ensures
        forall|k: int| 0 <= k < 52 ==> is_ascii_letter(#[trigger] id_option(k)),
        forall|c: char| #[trigger] is_ascii_letter(c) ==> exists|k: int| 0 <= k < 52 && #[trigger] id_option(k) == c,
        forall|k: int, j: int| 0 <= k < 52 && 0 <= j < 52 && k != j ==> #[trigger] id_option(k) != #[trigger] id_option(j),
{
    assert forall|c: char| #[trigger] is_ascii_letter(c) implies exists|k: int| 0 <= k < 52 && #[trigger] id_option(k) == c by {
        if 'a' <= c && c <= 'z' {
            let k = c as int - 97;
            assert(id_option(k) == c);
        } else {
            let k = c as int - 65 + 26;
            assert(id_option(k) == c);
        }
    }
}

/// A new panel gets the first offered id that no panel has: every id
/// offered before it is in use.
pub proof fn lemma_first_available_least(lps: Seq<LayoutPanel>, k: int)
    requires
        0 <= k < 52,
        !id_used(lps, id_option(k)),
        forall|j: int| 0 <= j < k ==> id_used(lps, #[trigger] id_option(j)),
    ensures
        first_available_id(lps) == id_option(k),
{
    lemma_least_free(lps, k);
    let m = choose|m: int|
        0 <= m < 52 && !id_used(lps, #[trigger] id_option(m)) && forall|j: int|
            0 <= j < m ==> id_used(lps, #[trigger] id_option(j));
    if m < k {
        assert(id_used(lps, id_option(m)));
    }
    if k < m {
        assert(id_used(lps, id_option(k)));
    }
}

/// Selecting a panel by an id that a layout panel has makes the first panel
/// with that id active and ends the selection.
pub proof fn lemma_select_by_id(a: AppStateModel, c: char, i: int)
    requires
        a.panels.len() <= usize::MAX,
        0 <= i < a.panels.len(),
        a.panels[i].id == c,
        forall|j: int| 0 <= j < i ==> #[trigger] a.panels[j].id != c,
    ensures
        select_panel_result(a, KeyCode::Char(c)).active_panel == i,
        !select_panel_result(a, KeyCode::Char(c)).selecting_panel,
        select_panel_result(a, KeyCode::Char(c)).input_request is None,
        select_panel_result(a, KeyCode::Char(c)).panels == a.panels,
{
    let ids = panel_ids(a.panels);
    assert forall|j: int| 0 <= j < i implies ids[j] != c by {
        assert(a.panels[j].id != c);
    }
    lemma_index_of(ids, c, i);
}

/// Adding a panel to the active split, where the active panel and its
/// split are there and an id is free: one layout panel more, in that split,
/// with an id no panel had, showing a new edit panel; the split gains it as
/// its last child; the other panels and splits, and the active panel, stay.
pub proof fn lemma_add_to_active_split(a: AppStateModel, store: Seq<TextPanelModel>, k: int)
    requires
        a.active_panel < a.panels.len(),
        a.panels[a.active_panel as int].split_index < a.splits.len(),
        0 <= k < 52,
        !id_used(a.panels, id_option(k)),
        store.len() < usize::MAX,
    ensures
        ({
            let (r, s1) = add_to_active_split_result(a, store);
            let split = a.panels[a.active_panel as int].split_index as int;
            let n = a.panels.len() as int;
            let new = r.panels[n];
            &&& r.panels.len() == n + 1
            &&& r.panels.take(n) == a.panels
            &&& new.split_index == split
            &&& !id_used(a.panels, new.id) && new.id != '\0'
            &&& new.panel_index < s1.len() && s1[new.panel_index as int] == fresh_panel(PanelKind::Edit)
            &&& r.splits.len() == a.splits.len()
            &&& r.splits[split].direction == a.splits[split].direction
            &&& r.splits[split].panels == a.splits[split].panels.push(UserSplits::Panel(new.panel_index))
            &&& forall|j: int| 0 <= j < a.splits.len() && j != split ==> #[trigger] r.splits[j] == a.splits[j]
            &&& r.active_panel == a.active_panel
        }),
{
    lemma_first_available_free(a.panels, k);
    lemma_pushed(store, fresh_panel(PanelKind::Edit));
    let n = a.panels.len() as int;
    let (r, s1) = add_to_active_split_result(a, store);
    assert(r.panels.take(n) =~= a.panels);
}

/// Splitting the active panel, where it is there, not static, and in its
/// split, and an id is free: its place in its split goes to a new split, the
/// last, laid out in the given direction, that holds the panel and after it
/// a new panel with an id no panel had; the panel now belongs to the new
/// split; the other children and splits stay.
#[verifier::rlimit(40)]
pub proof fn lemma_split_active(a: AppStateModel, store: Seq<TextPanelModel>, direction: Direction, i: int, k: int)
    requires
        a.active_panel < a.panels.len(),
        !a.static_panels.contains(a.panels[a.active_panel as int].id),
        a.panels[a.active_panel as int].split_index < a.splits.len(),
        a.splits.len() < usize::MAX,
        store.len() < usize::MAX,
        0 <= i < a.splits[a.panels[a.active_panel as int].split_index as int].panels.len(),
        a.splits[a.panels[a.active_panel as int].split_index as int].panels[i] == UserSplits::Panel(a.active_panel),
        forall|j: int| 0 <= j < i ==> #[trigger] a.splits[a.panels[a.active_panel as int].split_index as int].panels[j]
            != UserSplits::Panel(a.active_panel),
        0 <= k < 52,
        !id_used(a.panels, id_option(k)),
    ensures
        ({
            let (r, s1) = split_result(a, store, direction);
            let parent = a.panels[a.active_panel as int].split_index as int;
            let ns = a.splits.len() as int;
            let np = a.panels.len() as int;
            let new = r.panels[np];
            let old_children = a.splits[parent].panels;
            &&& r.splits.len() == ns + 1
            &&& r.splits[parent].panels.len() == old_children.len()
            &&& r.splits[parent].panels[i] == UserSplits::Split(ns as usize)
            &&& forall|j: int| 0 <= j < old_children.len() && j != i ==> #[trigger] r.splits[parent].panels[j] == old_children[j]
            &&& forall|j: int| 0 <= j < ns && j != parent ==> #[trigger] r.splits[j] == a.splits[j]
            &&& r.splits[ns].direction == direction
            &&& r.splits[ns].panels == seq![UserSplits::Panel(a.active_panel), UserSplits::Panel(new.panel_index)]
            &&& r.panels.len() == np + 1
            &&& r.panels[a.active_panel as int].split_index == ns
            &&& r.panels[a.active_panel as int].id == a.panels[a.active_panel as int].id
            &&& new.split_index == ns
            &&& !id_used(a.panels, new.id) && new.id != '\0'
            &&& new.panel_index < s1.len() && s1[new.panel_index as int] == fresh_panel(PanelKind::Edit)
            &&& r.active_panel == a.active_panel
        }),
{
    let lp = a.panels[a.active_panel as int];
    let parent = lp.split_index as int;
    let a1 = AppStateModel {
        panels: a.panels.update(a.active_panel as int, LayoutPanel { split_index: a.splits.len() as usize, ..lp }),
        ..a
    };
    assert forall|c: char| id_used(a1.panels, c) == id_used(a.panels, c) by {
        if id_used(a.panels, c) {
            let j = choose|j: int| 0 <= j < a.panels.len() && (#[trigger] a.panels[j]).id == c;
            assert(a1.panels[j].id == c);
        }
        if id_used(a1.panels, c) {
            let j = choose|j: int| 0 <= j < a1.panels.len() && (#[trigger] a1.panels[j]).id == c;
            assert(a.panels[j].id == c);
        }
    }
    lemma_first_available_free(a1.panels, k);
    lemma_pushed(store, fresh_panel(PanelKind::Edit));
    lemma_index_of(a.splits[parent].panels, UserSplits::Panel(a.active_panel), i);
    let (a2, s2, idx) = add_panel_result(a1, store, a.splits.len() as usize);
    assert(a2.splits == a.splits);
    assert(a2.panels[a.panels.len() as int].id == first_available_id(a1.panels));
    assert(!id_used(a.panels, first_available_id(a1.panels)));
}

/// Deleting the active panel, where it is there, not static, in its split
/// beside other children, and panels other than the static ones remain:
/// the panel leaves its split, the other children keep their order, the
/// other splits and the layout panels stay, its contents become an empty
/// slot, and the next panel in panel order becomes active.
pub proof fn lemma_delete_active(a: AppStateModel, store: Seq<TextPanelModel>, next: usize, i: int)
    requires
        neighbour_panel(a, store, true) == Ok::<usize, MessageModel>(next),
        a.active_panel < a.panels.len(),
        !a.static_panels.contains(a.panels[a.active_panel as int].id),
        a.panels[a.active_panel as int].split_index < a.splits.len(),
        0 <= i < a.splits[a.panels[a.active_panel as int].split_index as int].panels.len(),
        a.splits[a.panels[a.active_panel as int].split_index as int].panels.len() >= 2,
        a.splits[a.panels[a.active_panel as int].split_index as int].panels[i] == UserSplits::Panel(a.active_panel),
        forall|j: int| 0 <= j < i ==> #[trigger] a.splits[a.panels[a.active_panel as int].split_index as int].panels[j]
            != UserSplits::Panel(a.active_panel),
        active_count(a.panels, store_removed(store, a.panels[a.active_panel as int].panel_index)) > a.static_panels.len(),
    ensures
        ({
            let (r, s1) = delete_result(a, store);
            let lp = a.panels[a.active_panel as int];
            let sidx = lp.split_index as int;
            let old_children = a.splits[sidx].panels;
            &&& r.splits.len() == a.splits.len()
            &&& r.splits[sidx].panels == old_children.take(i) + old_children.skip(i + 1)
            &&& r.splits[sidx].direction == a.splits[sidx].direction
            &&& forall|j: int| 0 <= j < a.splits.len() && j != sidx ==> #[trigger] r.splits[j] == a.splits[j]
            &&& r.panels == a.panels
            &&& r.active_panel == next
            &&& s1.len() == store.len()
            &&& lp.panel_index < store.len() ==> s1[lp.panel_index as int].kind == PanelKind::Null
            &&& forall|j: int| 0 <= j < store.len() && j != lp.panel_index ==> #[trigger] s1[j] == store[j]
        }),
{
    let lp = a.panels[a.active_panel as int];
    let sidx = lp.split_index as int;
    let old_children = a.splits[sidx].panels;
    lemma_index_of(old_children, UserSplits::Panel(a.active_panel), i);
    assert(old_children.remove(i) =~= old_children.take(i) + old_children.skip(i + 1));
}

} // verus!
