use vstd::prelude::*;

use crate::keys::{KeyCode, KeyModifiers};

verus! {

/// The name and description shown for a command.
#[derive(Clone, Debug)]
pub struct CommandDetails {
    name: String,
    description: String,
}

impl CommandDetails {
    pub closed spec fn spec_name(self) -> Seq<char> {
        self.name@
    }

    pub closed spec fn spec_description(self) -> Seq<char> {
        self.description@
    }

    pub fn name(&self) -> (r: &String)
        ensures
            r@ == self.spec_name(),
    {
        &self.name
    }

    pub fn description(&self) -> (r: &String)
        ensures
            r@ == self.spec_description(),
    {
        &self.description
    }

    pub fn empty() -> (d: Self)
        ensures
            d.spec_name() == Seq::<char>::empty(),
            d.spec_description() == Seq::<char>::empty(),
    {
        CommandDetails { name: String::new(), description: String::new() }
    }

    pub fn new(name: &str, description: &str) -> (d: Self)
        ensures
            d.spec_name() == name@,
            d.spec_description() == description@,
    {
        CommandDetails { name: name.to_owned(), description: description.to_owned() }
    }

    pub fn split_horizontal() -> (d: Self)
        ensures
            d.spec_name() == "Split Horizontal"@,
            d.spec_description() == "Split active panel into two panels that are horizontally aligned."@,
    {
        CommandDetails::new("Split Horizontal", "Split active panel into two panels that are horizontally aligned.")
    }

    pub fn split_vertical() -> (d: Self)
        ensures
            d.spec_name() == "Split Vertical"@,
            d.spec_description() == "Split active panel into two panels that are vertically aligned."@,
    {
        CommandDetails::new("Split Vertical", "Split active panel into two panels that are vertically aligned.")
    }

    pub fn add_panel() -> (d: Self)
        ensures
            d.spec_name() == "Add Panel"@,
            d.spec_description() == "Add panel to active split."@,
    {
        CommandDetails::new("Add Panel", "Add panel to active split.")
    }

    pub fn remove_panel() -> (d: Self)
        ensures
            d.spec_name() == "Remove"@,
            d.spec_description() == "Remove active panel."@,
    {
        CommandDetails::new("Remove", "Remove active panel.")
    }

    pub fn change_panel_type() -> (d: Self)
        ensures
            d.spec_name() == "Change Panel Type"@,
            d.spec_description() == "Change type of active panel"@,
    {
        CommandDetails::new("Change Panel Type", "Change type of active panel")
    }

    pub fn activate_next_panel() -> (d: Self)
        ensures
            d.spec_name() == "Next Panel"@,
            d.spec_description() == "Activate next panel"@,
    {
        CommandDetails::new("Next Panel", "Activate next panel")
    }

    pub fn activate_previous_panel() -> (d: Self)
        ensures
            d.spec_name() == "Previous Panel"@,
            d.spec_description() == "Activate previous panel"@,
    {
        CommandDetails::new("Previous Panel", "Activate previous panel")
    }

    pub fn select_panel() -> (d: Self)
        ensures
            d.spec_name() == "Activate Panel"@,
            d.spec_description() == "Activate a panel by selecting its ID. The IDs will be displayed next to panel titles after first key."@,
    {
        CommandDetails::new("Activate Panel", "Activate a panel by selecting its ID. The IDs will be displayed next to panel titles after first key.")
    }

    pub fn open_file() -> (d: Self)
        ensures
            d.spec_name() == "Open File"@,
            d.spec_description() == "Open a file by typing name in input panel."@,
    {
        CommandDetails::new("Open File", "Open a file by typing name in input panel.")
    }
}

/// A key together with the modifiers held while pressing it: one step of a
/// command sequence.
#[derive(Debug, Clone, Copy, PartialEq, Eq, Structural, Hash)]
pub struct CommandKeyId {
    pub code: KeyCode,
    pub mods: KeyModifiers,
}

impl CommandKeyId {
    pub fn new(code: KeyCode, mods: KeyModifiers) -> (id: Self)
        ensures
            id.code == code,
            id.mods == mods,
    {
        CommandKeyId { code, mods }
    }

    pub fn new_code(code: KeyCode) -> (id: Self)
        ensures
            id.code == code,
            id.mods.bits == 0,
    {
        CommandKeyId { code, mods: KeyModifiers::empty() }
    }

    pub fn code(&self) -> (c: KeyCode)
        ensures
            c == self.code,
    {
        self.code
    }

    pub fn mods(&self) -> (m: KeyModifiers)
        ensures
            m == self.mods,
    {
        self.mods
    }
}

/// A node of a command trie. A `Node` may continue into children, keyed by
/// each child's own key and modifiers, and may carry an action to run when
/// it is reached; a `Leaf` ends a command sequence.
pub enum CommandKey<T> {
    Node(KeyCode, KeyModifiers, Vec<CommandKey<T>>, Option<T>),
    Leaf(KeyCode, KeyModifiers, CommandDetails, T),
}

/// What a trie holds at one path, forgetting the children.
pub enum Entry<T> {
    Branch(Option<T>),
    Command(CommandDetails, T),
}

impl<T> CommandKey<T> {
    /// The key under which this node sits in its parent.
    pub open spec fn key(self) -> CommandKeyId {
        match self {
            CommandKey::Node(c, m, _, _) => CommandKeyId { code: c, mods: m },
            CommandKey::Leaf(c, m, _, _) => CommandKeyId { code: c, mods: m },
        }
    }

    pub open spec fn entry(self) -> Entry<T> {
        match self {
            CommandKey::Node(_, _, _, a) => Entry::Branch(a),
            CommandKey::Leaf(_, _, d, a) => Entry::Command(d, a),
        }
    }

    pub open spec fn children(self) -> Seq<CommandKey<T>> {
        match self {
            CommandKey::Node(_, _, ch, _) => ch@,
            CommandKey::Leaf(..) => Seq::empty(),
        }
    }

    /// Children are keyed uniquely, at every level.
    pub open spec fn wf(self) -> bool
        decreases self,
    {
        match self {
            CommandKey::Node(_, _, ch, _) => {
                &&& distinct_keys(ch@)
                &&& forall|i: int|
                    0 <= i < ch@.len() ==> (#[trigger] ch@[i]).wf()
            },
            CommandKey::Leaf(..) => true,
        }
    }

    fn get_hash(&self) -> (id: CommandKeyId)
        ensures
            id == self.key(),
    {
        match self {
            CommandKey::Node(c, m, _, _) => CommandKeyId::new(*c, *m),
            CommandKey::Leaf(c, m, _, _) => CommandKeyId::new(*c, *m),
        }
    }
}

pub open spec fn distinct_keys<T>(ch: Seq<CommandKey<T>>) -> bool {
    forall|i: int, j: int|
        0 <= i < ch.len() && 0 <= j < ch.len() && i != j ==> #[trigger] ch[i].key()
            != #[trigger] ch[j].key()
}

pub open spec fn has_child<T>(ch: Seq<CommandKey<T>>, id: CommandKeyId) -> bool {
    exists|i: int| 0 <= i < ch.len() && #[trigger] ch[i].key() == id
}

pub open spec fn child_index<T>(ch: Seq<CommandKey<T>>, id: CommandKeyId) -> int {
    choose|i: int| 0 <= i < ch.len() && #[trigger] ch[i].key() == id
}

pub open spec fn child_at<T>(ch: Seq<CommandKey<T>>, id: CommandKeyId) -> CommandKey<T> {
    ch[child_index(ch, id)]
}

/// The node reached from `node` by following `path` exactly.
pub open spec fn lookup<T>(node: CommandKey<T>, path: Seq<CommandKeyId>) -> Option<CommandKey<T>>
    decreases path.len(),
{
    if path.len() == 0 {
        Some(node)
    } else {
        match node {
            CommandKey::Node(_, _, ch, _) => if has_child(ch@, path[0]) {
                lookup(child_at(ch@, path[0]), path.drop_first())
            } else {
                None
            },
            CommandKey::Leaf(..) => None,
        }
    }
}

/// What the trie holds at `path`, if anything.
pub open spec fn entry_at<T>(node: CommandKey<T>, path: Seq<CommandKeyId>) -> Option<Entry<T>> {
    match lookup(node, path) {
        Some(n) => Some(n.entry()),
        None => None,
    }
}

/// The key under which a key that matches nothing is looked up instead: the
/// catch-all key with the same modifiers.
pub open spec fn catch_all_id(id: CommandKeyId) -> CommandKeyId {
    CommandKeyId { code: KeyCode::Null, mods: id.mods }
}

/// The node that a sequence of pressed keys leads to: each key goes to the
/// child with that key, or else to the catch-all child with the same
/// modifiers; a command reached early ends the walk.
pub open spec fn resolve<T>(node: CommandKey<T>, path: Seq<CommandKeyId>) -> Option<CommandKey<T>>
    decreases path.len(),
{
    if path.len() == 0 {
        Some(node)
    } else {
        match node {
            CommandKey::Node(_, _, ch, _) => if has_child(ch@, path[0]) {
                resolve(child_at(ch@, path[0]), path.drop_first())
            } else if has_child(ch@, catch_all_id(path[0])) {
                resolve(child_at(ch@, catch_all_id(path[0])), path.drop_first())
            } else {
                None
            },
            CommandKey::Leaf(..) => Some(node),
        }
    }
}

/// The finding of a node: whether it ends a command, and the action it
/// carries.
pub open spec fn node_result<T>(n: CommandKey<T>) -> (bool, Option<T>) {
    match n {
        CommandKey::Node(_, _, _, a) => (false, a),
        CommandKey::Leaf(_, _, _, a) => (true, Some(a)),
    }
}

fn find_child<T>(children: &Vec<CommandKey<T>>, id: CommandKeyId) -> (r: Option<usize>)
    ensures
        r is None <==> !has_child(children@, id),
        r matches Some(i) ==> i < children@.len() && children@[i as int].key() == id,
{
    let mut i: usize = 0;
    while i < children.len()
        invariant
            i <= children@.len(),
            forall|j: int| 0 <= j < i ==> (#[trigger] children@[j]).key() != id,
        decreases children@.len() - i,
    {
        if children[i].get_hash() == id {
            return Some(i);
        }
        i = i + 1;
    }
    None
}

/// With distinct keys, the child found by key is the one at any index with
/// that key.
proof fn lemma_child_at_index<T>(ch: Seq<CommandKey<T>>, i: int)
    requires
        distinct_keys(ch),
        0 <= i < ch.len(),
    ensures
        has_child(ch, ch[i].key()),
        child_index(ch, ch[i].key()) == i,
        child_at(ch, ch[i].key()) == ch[i],
{
    assert(0 <= i < ch.len() && ch[i].key() == ch[i].key());
    let k = child_index(ch, ch[i].key());
    assert(ch[k].key() == ch[i].key());
}


/// A trie of key sequences, each ending in a command.
pub struct Commands<T> {
    root: CommandKey<T>,
}

/// The root of an empty trie: a catch-all branch with no children and no
/// action.
pub open spec fn is_empty_root<T>(n: CommandKey<T>) -> bool {
    &&& n matches CommandKey::Node(code, mods, ch, a)
    &&& code == KeyCode::Null
    &&& mods.bits == 0
    &&& ch@.len() == 0
    &&& a is None
}

impl<T> Commands<T> {
    #[verifier::type_invariant]
    spec fn inv(self) -> bool {
        &&& self.root is Node
        &&& self.root.wf()
    }

    /// The trie's root node: a branch without an action.
    pub closed spec fn root_node(self) -> CommandKey<T> {
        self.root
    }

    /// What the trie holds at `path`, counted from the root.
    pub open spec fn entry(self, path: Seq<CommandKeyId>) -> Option<Entry<T>> {
        entry_at(self.root_node(), path)
    }

    /// The trie is well formed: its root is a branch and keys are unique
    /// among siblings at every level.
    pub open spec fn wf(self) -> bool {
        &&& self.root_node() is Node
        &&& self.root_node().wf()
    }
}

/// `resolve` one step further along a path.
proof fn lemma_resolve_step<T>(node: CommandKey<T>, p: Seq<CommandKeyId>, i: int)
    requires
        0 <= i < p.len(),
        node is Node,
    ensures
        resolve(node, p.skip(i)) == (if has_child(node.children(), p[i]) {
            resolve(child_at(node.children(), p[i]), p.skip(i + 1))
        } else if has_child(node.children(), catch_all_id(p[i])) {
            resolve(child_at(node.children(), catch_all_id(p[i])), p.skip(i + 1))
        } else {
            None
        }),
{
    assert(p.skip(i)[0] == p[i]);
    assert(p.skip(i).drop_first() =~= p.skip(i + 1));
}

/// `lookup` one step further along a path.
proof fn lemma_lookup_step<T>(node: CommandKey<T>, p: Seq<CommandKeyId>, i: int)
    requires
        0 <= i < p.len(),
    ensures
        lookup(node, p.skip(i)) == (match node {
            CommandKey::Node(_, _, ch, _) => if has_child(ch@, p[i]) {
                lookup(child_at(ch@, p[i]), p.skip(i + 1))
            } else {
                None
            },
            CommandKey::Leaf(..) => None,
        }),
{
    assert(p.skip(i)[0] == p[i]);
    assert(p.skip(i).drop_first() =~= p.skip(i + 1));
}

impl<T: Copy> Commands<T> {
    pub fn new() -> (c: Self)
        ensures
            is_empty_root(c.root_node()),
            forall|p: Seq<CommandKeyId>| #[trigger] c.entry(p) == if p.len() == 0 {
                Some(Entry::<T>::Branch(None))
            } else {
                None
            },
    {
        let c = Commands {
            root: CommandKey::Node(KeyCode::Null, KeyModifiers::empty(), Vec::new(), None),
        };
        proof {
            assert forall|p: Seq<CommandKeyId>| #[trigger] c.entry(p) == if p.len() == 0 {
                Some(Entry::<T>::Branch(None))
            } else {
                None
            } by {
                if p.len() > 0 {
                    assert(!has_child(c.root.children(), p[0]));
                }
            }
        }
        c
    }

    /// A builder for a command sequence, with no keys yet.
    pub fn builder() -> (b: CommandSequenceBuilder<T>)
        ensures
            b.spec_ids() == Seq::<CommandKeyId>::empty(),
            b.spec_actions() == Seq::<Option<T>>::empty(),
            b.spec_action() is None,
            b.spec_details().spec_name().len() == 0,
    {
        CommandSequenceBuilder::new()
    }

    /// The node that the pressed keys lead to, with catch-all keys matching
    /// any key of the same modifiers.
    pub fn get_node(&self, path: &Vec<CommandKeyId>) -> (r: Option<&CommandKey<T>>)
        ensures
            match r {
                Some(n) => resolve(self.root_node(), path@) == Some(*n),
                None => resolve(self.root_node(), path@) is None,
            },
    {
        proof {
            use_type_invariant(self);
        }
        let mut current: &CommandKey<T> = &self.root;
        let mut i: usize = 0;
        let mut done = false;
        assert(path@.skip(0) =~= path@);
        while i < path.len() && !done
            invariant
                i <= path@.len(),
                current.wf(),
                done ==> current is Leaf,
                resolve(self.root, path@) == if done {
                    Some(*current)
                } else {
                    resolve(*current, path@.skip(i as int))
                },
            decreases path@.len() - i, if done { 0int } else { 1int },
        {
            match current {
                CommandKey::Node(_, _, children, _) => {
                    proof {
                        lemma_resolve_step(*current, path@, i as int);
                    }
                    match find_child(children, path[i]) {
                        Some(j) => {
                            proof {
                                lemma_child_at_index(children@, j as int);
                            }
                            current = &children[j];
                        },
                        None => {
                            match find_child(children, CommandKeyId::new(KeyCode::Null, path[i].mods)) {
                                Some(j) => {
                                    proof {
                                        lemma_child_at_index(children@, j as int);
                                    }
                                    current = &children[j];
                                },
                                None => {
                                    return None;
                                },
                            }
                        },
                    }
                    i = i + 1;
                },
                CommandKey::Leaf(..) => {
                    done = true;
                },
            }
        }
        proof {
            if !done {
                assert(path@.skip(i as int).len() == 0);
            }
        }
        Some(current)
    }

    /// Whether the pressed keys end a command, and the action to run.
    pub fn get(&self, path: &Vec<CommandKeyId>) -> (r: Option<(bool, Option<T>)>)
        ensures
            r == match resolve(self.root_node(), path@) {
                Some(n) => Some(node_result(n)),
                None => None,
            },
    {
        match self.get_node(path) {
            None => None,
            Some(current) => Some(
                match current {
                    CommandKey::Node(_, _, _, action) => (false, *action),
                    CommandKey::Leaf(_, _, _, action) => (true, Some(*action)),
                },
            ),
        }
    }

    /// Whether a sequence of keys can go no further: it does not lead
    /// exactly to a branch of the trie.
    pub fn is_end(&self, progress: &Vec<CommandKeyId>) -> (r: bool)
        ensures
            r == !(self.entry(progress@) matches Some(Entry::Branch(_))),
    {
        proof {
            use_type_invariant(self);
        }
        let mut current: &CommandKey<T> = &self.root;
        let mut i: usize = 0;
        assert(progress@.skip(0) =~= progress@);
        while i < progress.len()
            invariant
                i <= progress@.len(),
                current.wf(),
                lookup(self.root, progress@) == lookup(*current, progress@.skip(i as int)),
            decreases progress@.len() - i,
        {
            proof {
                lemma_lookup_step(*current, progress@, i as int);
            }
            match current {
                CommandKey::Node(_, _, children, _) => {
                    match find_child(children, progress[i]) {
                        Some(j) => {
                            proof {
                                lemma_child_at_index(children@, j as int);
                            }
                            current = &children[j];
                        },
                        None => {
                            return true;
                        },
                    }
                },
                CommandKey::Leaf(..) => {
                    return true;
                },
            }
            i = i + 1;
        }
        assert(progress@.skip(i as int).len() == 0);
        match current {
            CommandKey::Node(..) => false,
            CommandKey::Leaf(..) => true,
        }
    }
}


/// The step of pressing a character key with no modifier.
pub open spec fn plain_char_id(c: char) -> CommandKeyId {
    CommandKeyId { code: KeyCode::Char(c), mods: KeyModifiers { bits: 0 } }
}

/// One step of a command sequence under construction, with an optional
/// action for the branch it creates.
#[derive(Clone, Copy)]
pub struct CommandKeyBuilder<T> {
    code: KeyCode,
    mods: KeyModifiers,
    action: Option<T>,
}

impl<T> CommandKeyBuilder<T> {
    pub closed spec fn spec_id(self) -> CommandKeyId {
        CommandKeyId { code: self.code, mods: self.mods }
    }

    pub closed spec fn spec_action(self) -> Option<T> {
        self.action
    }

    fn id(&self) -> (r: CommandKeyId)
        ensures
            r == self.spec_id(),
    {
        CommandKeyId::new(self.code, self.mods)
    }

    pub fn mods(self, mods: KeyModifiers) -> (r: Self)
        ensures
            r.spec_id() == (CommandKeyId { code: self.spec_id().code, mods }),
            r.spec_action() == self.spec_action(),
    {
        CommandKeyBuilder { code: self.code, mods, action: self.action }
    }

    pub fn action(self, action: T) -> (r: Self)
        ensures
            r.spec_id() == self.spec_id(),
            r.spec_action() == Some(action),
    {
        CommandKeyBuilder { code: self.code, mods: self.mods, action: Some(action) }
    }
}

fn key_builder<T>(code: KeyCode, bits: u8) -> (r: CommandKeyBuilder<T>)
    ensures
        r.spec_id() == (CommandKeyId { code, mods: KeyModifiers { bits } }),
        r.spec_action() is None,
{
    CommandKeyBuilder { code, mods: KeyModifiers { bits }, action: None }
}

/// The character key pressed with Alt.
pub fn alt_key<T>(key: char) -> (r: CommandKeyBuilder<T>)
    ensures
        r.spec_id() == (CommandKeyId { code: KeyCode::Char(key), mods: KeyModifiers { bits: 4 } }),
        r.spec_action() is None,
{
    key_builder(KeyCode::Char(key), 4)
}

/// The character key pressed with Shift and Alt.
pub fn shift_alt_key<T>(key: char) -> (r: CommandKeyBuilder<T>)
    ensures
        r.spec_id() == (CommandKeyId { code: KeyCode::Char(key), mods: KeyModifiers { bits: 5 } }),
        r.spec_action() is None,
{
    key_builder(KeyCode::Char(key), 5)
}

/// The character key pressed with Control.
pub fn ctrl_key<T>(key: char) -> (r: CommandKeyBuilder<T>)
    ensures
        r.spec_id() == (CommandKeyId { code: KeyCode::Char(key), mods: KeyModifiers { bits: 2 } }),
        r.spec_action() is None,
{
    key_builder(KeyCode::Char(key), 2)
}

/// The character key pressed with Control and Alt.
pub fn ctrl_alt_key<T>(key: char) -> (r: CommandKeyBuilder<T>)
    ensures
        r.spec_id() == (CommandKeyId { code: KeyCode::Char(key), mods: KeyModifiers { bits: 6 } }),
        r.spec_action() is None,
{
    key_builder(KeyCode::Char(key), 6)
}

/// The character key with no modifier.
pub fn key<T>(c: char) -> (r: CommandKeyBuilder<T>)
    ensures
        r.spec_id() == (CommandKeyId { code: KeyCode::Char(c), mods: KeyModifiers { bits: 0 } }),
        r.spec_action() is None,
{
    key_builder(KeyCode::Char(c), 0)
}

/// Any key with no modifier.
pub fn code<T>(k: KeyCode) -> (r: CommandKeyBuilder<T>)
    ensures
        r.spec_id() == (CommandKeyId { code: k, mods: KeyModifiers { bits: 0 } }),
        r.spec_action() is None,
{
    key_builder(k, 0)
}

/// The catch-all key with no modifier.
pub fn catch_all<T>() -> (r: CommandKeyBuilder<T>)
    ensures
        r.spec_id() == (CommandKeyId { code: KeyCode::Null, mods: KeyModifiers { bits: 0 } }),
        r.spec_action() is None,
{
    key_builder(KeyCode::Null, 0)
}

/// The catch-all key with Shift.
pub fn shift_catch_all<T>() -> (r: CommandKeyBuilder<T>)
    ensures
        r.spec_id() == (CommandKeyId { code: KeyCode::Null, mods: KeyModifiers { bits: 1 } }),
        r.spec_action() is None,
{
    key_builder(KeyCode::Null, 1)
}

/// The catch-all key with Alt.
pub fn alt_catch_all<T>() -> (r: CommandKeyBuilder<T>)
    ensures
        r.spec_id() == (CommandKeyId { code: KeyCode::Null, mods: KeyModifiers { bits: 4 } }),
        r.spec_action() is None,
{
    key_builder(KeyCode::Null, 4)
}

/// A command sequence under construction: its keys, and the details and
/// action of the command it ends in.
pub struct CommandSequenceBuilder<T> {
    nodes: Vec<CommandKeyBuilder<T>>,
    details: CommandDetails,
    action: Option<T>,
}

impl<T> CommandSequenceBuilder<T> {
    /// The keys of the sequence.
    pub closed spec fn spec_ids(self) -> Seq<CommandKeyId> {
        self.nodes@.map_values(|n: CommandKeyBuilder<T>| n.spec_id())
    }

    /// The actions of the branches that the sequence creates.
    pub closed spec fn spec_actions(self) -> Seq<Option<T>> {
        self.nodes@.map_values(|n: CommandKeyBuilder<T>| n.spec_action())
    }

    pub closed spec fn spec_details(self) -> CommandDetails {
        self.details
    }

    pub closed spec fn spec_action(self) -> Option<T> {
        self.action
    }

    fn new() -> (b: Self)
        ensures
            b.spec_ids() == Seq::<CommandKeyId>::empty(),
            b.spec_actions() == Seq::<Option<T>>::empty(),
            b.spec_action() is None,
            b.spec_details().spec_name().len() == 0,
    {
        let b = CommandSequenceBuilder {
            nodes: Vec::new(),
            details: CommandDetails::empty(),
            action: None,
        };
        assert(b.spec_ids() =~= Seq::<CommandKeyId>::empty());
        assert(b.spec_actions() =~= Seq::<Option<T>>::empty());
        b
    }

    /// Appends one step for each character of `keys`, with no modifier.
    pub fn keys(self, keys: &str) -> (r: Self)
        ensures
            r.spec_ids() == self.spec_ids() + keys@.map_values(
                |c: char| plain_char_id(c),
            ),
            r.spec_actions() == self.spec_actions() + keys@.map_values(|c: char| None::<T>),
            r.spec_details() == self.spec_details(),
            r.spec_action() == self.spec_action(),
    {
        let mut b = self;
        let cs = crate::text_util::str_chars(keys);
        let mut i: usize = 0;
        while i < cs.len()
            invariant
                cs@ == keys@,
                i <= cs@.len(),
                b.spec_details() == self.spec_details(),
                b.spec_action() == self.spec_action(),
                b.spec_ids() =~= self.spec_ids() + cs@.take(i as int).map_values(
                    |c: char| plain_char_id(c),
                ),
                b.spec_actions() =~= self.spec_actions() + cs@.take(i as int).map_values(
                    |c: char| None::<T>,
                ),
            decreases cs@.len() - i,
        {
            let ghost before_ids = b.spec_ids();
            let ghost before_acts = b.spec_actions();
            b.nodes.push(key(cs[i]));
            assert(b.spec_ids() =~= before_ids.push(plain_char_id(cs@[i as int])));
            assert(b.spec_actions() =~= before_acts.push(None::<T>));
            assert(cs@.take(i + 1) =~= cs@.take(i as int).push(cs@[i as int]));
            i = i + 1;
        }
        assert(cs@.take(cs@.len() as int) =~= keys@);
        b
    }

    pub fn node(self, c: CommandKeyBuilder<T>) -> (r: Self)
        ensures
            r.spec_ids() == self.spec_ids().push(c.spec_id()),
            r.spec_actions() == self.spec_actions().push(c.spec_action()),
            r.spec_details() == self.spec_details(),
            r.spec_action() == self.spec_action(),
    {
        let mut b = self;
        b.nodes.push(c);
        assert(b.spec_ids() =~= self.spec_ids().push(c.spec_id()));
        assert(b.spec_actions() =~= self.spec_actions().push(c.spec_action()));
        b
    }

    pub fn action(self, details: CommandDetails, action: T) -> (r: Self)
        ensures
            r.spec_ids() == self.spec_ids(),
            r.spec_actions() == self.spec_actions(),
            r.spec_details() == details,
            r.spec_action() == Some(action),
    {
        CommandSequenceBuilder { nodes: self.nodes, details, action: Some(action) }
    }
}


/// The keys of a sequence of steps.
pub open spec fn step_ids<T>(nodes: Seq<CommandKeyBuilder<T>>) -> Seq<CommandKeyId> {
    nodes.map_values(|n: CommandKeyBuilder<T>| n.spec_id())
}

/// The branch actions of a sequence of steps.
pub open spec fn step_actions<T>(nodes: Seq<CommandKeyBuilder<T>>) -> Seq<Option<T>> {
    nodes.map_values(|n: CommandKeyBuilder<T>| n.spec_action())
}

/// Some proper prefix of `s`, the empty one included, already leads to a
/// command: a sequence cannot run through a command.
pub open spec fn blocked<T>(node: CommandKey<T>, s: Seq<CommandKeyId>) -> bool {
    exists|l: int|
        0 <= l < s.len() && (#[trigger] entry_at(node, s.take(l))) matches Some(
            Entry::Command(_, _),
        )
}

/// What `node` holds at `p` once the key sequence `s` has been added: each
/// proper non-empty prefix of `s` that held nothing becomes a branch with
/// the matching action of `acts`; where `last` is given, `s` holds it and
/// everything below `s` is gone.
pub open spec fn inserted_entry<T>(
    node: CommandKey<T>,
    s: Seq<CommandKeyId>,
    acts: Seq<Option<T>>,
    last: Option<Entry<T>>,
    p: Seq<CommandKeyId>,
) -> Option<Entry<T>> {
    if last is Some && s.is_prefix_of(p) {
        if p.len() == s.len() {
            last
        } else {
            None
        }
    } else if p.is_prefix_of(s) && 1 <= p.len() < s.len() {
        match entry_at(node, p) {
            Some(e) => Some(e),
            None => Some(Entry::Branch(acts[p.len() - 1])),
        }
    } else {
        entry_at(node, p)
    }
}

proof fn lemma_update_child<T>(ch: Seq<CommandKey<T>>, idx: int, c: CommandKey<T>)
    requires
        distinct_keys(ch),
        0 <= idx < ch.len(),
        c.key() == ch[idx].key(),
    ensures
        distinct_keys(ch.update(idx, c)),
        forall|id: CommandKeyId| #[trigger]
            has_child(ch.update(idx, c), id) == has_child(ch, id),
        forall|id: CommandKeyId|
            has_child(ch, id) ==> #[trigger] child_at(ch.update(idx, c), id) == if id
                == c.key() {
                c
            } else {
                child_at(ch, id)
            },
{
    let ch2 = ch.update(idx, c);
    assert forall|i: int, j: int|
        0 <= i < ch2.len() && 0 <= j < ch2.len() && i != j implies #[trigger] ch2[i].key()
        != #[trigger] ch2[j].key() by {
        assert(ch2[i].key() == ch[i].key());
        assert(ch2[j].key() == ch[j].key());
    }
    assert forall|id: CommandKeyId| #[trigger] has_child(ch2, id) == has_child(ch, id) by {
        if has_child(ch, id) {
            let k = child_index(ch, id);
            assert(ch2[k].key() == id);
        }
        if has_child(ch2, id) {
            let k = child_index(ch2, id);
            assert(ch[k].key() == id);
        }
    }
    assert forall|id: CommandKeyId| has_child(ch, id) implies #[trigger] child_at(ch2, id) == if id
        == c.key() {
        c
    } else {
        child_at(ch, id)
    } by {
        let k = child_index(ch, id);
        lemma_child_at_index(ch, k);
        lemma_child_at_index(ch2, k);
    }
}

proof fn lemma_push_child<T>(ch: Seq<CommandKey<T>>, c: CommandKey<T>)
    requires
        distinct_keys(ch),
        !has_child(ch, c.key()),
    ensures
        distinct_keys(ch.push(c)),
        forall|id: CommandKeyId| #[trigger]
            has_child(ch.push(c), id) == (has_child(ch, id) || id == c.key()),
        child_at(ch.push(c), c.key()) == c,
        forall|id: CommandKeyId|
            has_child(ch, id) ==> #[trigger] child_at(ch.push(c), id) == child_at(ch, id),
{
    let ch2 = ch.push(c);
    assert forall|i: int, j: int|
        0 <= i < ch2.len() && 0 <= j < ch2.len() && i != j implies #[trigger] ch2[i].key()
        != #[trigger] ch2[j].key() by {
        if i < ch.len() && j < ch.len() {
            assert(ch2[i] == ch[i]);
            assert(ch2[j] == ch[j]);
        } else if i < ch.len() {
            assert(ch2[i] == ch[i]);
            assert(ch[i].key() != c.key());
        } else if j < ch.len() {
            assert(ch2[j] == ch[j]);
            assert(ch[j].key() != c.key());
        }
    }
    assert forall|id: CommandKeyId| #[trigger]
        has_child(ch2, id) == (has_child(ch, id) || id == c.key()) by {
        if has_child(ch, id) {
            let k = child_index(ch, id);
            assert(ch2[k].key() == id);
        }
        if id == c.key() {
            assert(ch2[ch.len() as int].key() == id);
        }
        if has_child(ch2, id) && id != c.key() {
            let k = child_index(ch2, id);
            assert(k < ch.len());
            assert(ch[k].key() == id);
        }
    }
    lemma_child_at_index(ch2, ch.len() as int);
    assert forall|id: CommandKeyId| has_child(ch, id) implies #[trigger] child_at(ch2, id)
        == child_at(ch, id) by {
        let k = child_index(ch, id);
        lemma_child_at_index(ch, k);
        assert(ch2[k] == ch[k]);
        lemma_child_at_index(ch2, k);
    }
}

/// A branch with no children holds nothing below itself.
proof fn lemma_leaf_like_entries<T>(n: CommandKey<T>, p: Seq<CommandKeyId>)
    requires
        n.children().len() == 0,
    ensures
        entry_at(n, p) == if p.len() == 0 {
            Some(n.entry())
        } else {
            None
        },
{
    if p.len() > 0 {
        if n is Node {
            assert(!has_child(n.children(), p[0]));
        }
    }
}

/// Stepping into the child of a branch.
proof fn lemma_entry_step<T>(n: CommandKey<T>, p: Seq<CommandKeyId>)
    requires
        n is Node,
        p.len() > 0,
    ensures
        entry_at(n, p) == if has_child(n.children(), p[0]) {
            entry_at(child_at(n.children(), p[0]), p.drop_first())
        } else {
            None
        },
{
}

proof fn lemma_prefix_step(s: Seq<CommandKeyId>, p: Seq<CommandKeyId>)
    requires
        s.len() > 0,
        p.len() > 0,
    ensures
        p[0] == s[0] ==> (s.is_prefix_of(p) <==> s.drop_first().is_prefix_of(p.drop_first())),
        p[0] == s[0] ==> (p.is_prefix_of(s) <==> p.drop_first().is_prefix_of(s.drop_first())),
        p[0] != s[0] ==> !s.is_prefix_of(p) && !p.is_prefix_of(s),
{
    if p[0] == s[0] {
        if s.is_prefix_of(p) {
            assert forall|k: int| 0 <= k < s.drop_first().len() implies s.drop_first()[k]
                == p.drop_first().subrange(0, s.drop_first().len() as int)[k] by {
                assert(s[k + 1] == p.subrange(0, s.len() as int)[k + 1]);
            }
            assert(s.drop_first() =~= p.drop_first().subrange(0, s.drop_first().len() as int));
        }
        if s.drop_first().is_prefix_of(p.drop_first()) {
            assert forall|k: int| 0 <= k < s.len() implies s[k] == p.subrange(
                0,
                s.len() as int,
            )[k] by {
                if k > 0 {
                    assert(s.drop_first()[k - 1] == p.drop_first().subrange(
                        0,
                        s.drop_first().len() as int,
                    )[k - 1]);
                }
            }
            assert(s =~= p.subrange(0, s.len() as int));
        }
        if p.is_prefix_of(s) {
            assert forall|k: int| 0 <= k < p.drop_first().len() implies p.drop_first()[k]
                == s.drop_first().subrange(0, p.drop_first().len() as int)[k] by {
                assert(p[k + 1] == s.subrange(0, p.len() as int)[k + 1]);
            }
            assert(p.drop_first() =~= s.drop_first().subrange(0, p.drop_first().len() as int));
        }
        if p.drop_first().is_prefix_of(s.drop_first()) {
            assert forall|k: int| 0 <= k < p.len() implies p[k] == s.subrange(
                0,
                p.len() as int,
            )[k] by {
                if k > 0 {
                    assert(p.drop_first()[k - 1] == s.drop_first().subrange(
                        0,
                        p.drop_first().len() as int,
                    )[k - 1]);
                }
            }
            assert(p =~= s.subrange(0, p.len() as int));
        }
    } else {
        if s.is_prefix_of(p) {
            assert(s[0] == p.subrange(0, s.len() as int)[0]);
        }
        if p.is_prefix_of(s) {
            assert(p[0] == s.subrange(0, p.len() as int)[0]);
        }
    }
}

proof fn lemma_blocked_step<T>(n: CommandKey<T>, s: Seq<CommandKeyId>)
    requires
        n is Node,
        s.len() > 0,
    ensures
        blocked(n, s) <==> has_child(n.children(), s[0]) && blocked(
            child_at(n.children(), s[0]),
            s.drop_first(),
        ),
{
    if blocked(n, s) {
        let l = choose|l: int|
            0 <= l < s.len() && (#[trigger] entry_at(n, s.take(l))) matches Some(
                Entry::Command(_, _),
            );
        assert(l > 0);
        assert(s.take(l)[0] == s[0]);
        assert(s.take(l).drop_first() =~= s.drop_first().take(l - 1));
        lemma_entry_step(n, s.take(l));
        let c = child_at(n.children(), s[0]);
        assert(entry_at(c, s.drop_first().take(l - 1)) matches Some(Entry::Command(_, _)));
    }
    if has_child(n.children(), s[0]) && blocked(child_at(n.children(), s[0]), s.drop_first()) {
        let c = child_at(n.children(), s[0]);
        let l = choose|l: int|
            0 <= l < s.drop_first().len() && (#[trigger] entry_at(
                c,
                s.drop_first().take(l),
            )) matches Some(Entry::Command(_, _));
        assert(s.take(l + 1)[0] == s[0]);
        assert(s.take(l + 1).drop_first() =~= s.drop_first().take(l));
        lemma_entry_step(n, s.take(l + 1));
        assert(entry_at(n, s.take(l + 1)) matches Some(Entry::Command(_, _)));
    }
}

/// A branch with no children is never blocked.
proof fn lemma_fresh_not_blocked<T>(n: CommandKey<T>, s: Seq<CommandKeyId>)
    requires
        n is Node,
        n.children().len() == 0,
    ensures
        !blocked(n, s),
{
    assert forall|l: int| 0 <= l < s.len() implies !(#[trigger] entry_at(
        n,
        s.take(l),
    ) matches Some(Entry::Command(_, _))) by {
        lemma_leaf_like_entries(n, s.take(l));
    }
}

fn existing_command_error() -> (e: String)
    ensures
        e@ == "Existing command in sequence."@,
{
    "Existing command in sequence.".to_owned()
}

fn missing_action_error() -> (e: String)
    ensures
        e@ == "Missing command action."@,
{
    "Missing command action.".to_owned()
}

/// `ch2` is `ch` with the child under `h` set to `c1`, added if absent.
pub open spec fn replaced_child<T>(
    ch: Seq<CommandKey<T>>,
    ch2: Seq<CommandKey<T>>,
    h: CommandKeyId,
    c1: CommandKey<T>,
) -> bool {
    &&& forall|id: CommandKeyId| #[trigger] has_child(ch2, id) == (has_child(ch, id) || id == h)
    &&& child_at(ch2, h) == c1
    &&& forall|id: CommandKeyId|
        id != h && has_child(ch, id) ==> #[trigger] child_at(ch2, id) == child_at(ch, id)
}

/// Sets the child under `c1`'s key to `c1`, replacing one that is there.
fn set_child<T>(children: Vec<CommandKey<T>>, c1: CommandKey<T>) -> (r: Vec<CommandKey<T>>)
    requires
        distinct_keys(children@),
        forall|k: int| 0 <= k < children@.len() ==> (#[trigger] children@[k]).wf(),
        c1.wf(),
    ensures
        distinct_keys(r@),
        forall|k: int| 0 <= k < r@.len() ==> (#[trigger] r@[k]).wf(),
        replaced_child(children@, r@, c1.key(), c1),
{
    let mut children = children;
    let ghost ch0 = children@;
    let h = c1.get_hash();
    match find_child(&children, h) {
        Some(j) => {
            proof {
                lemma_update_child(ch0, j as int, c1);
                lemma_child_at_index(ch0, j as int);
            }
            children.set(j, c1);
            proof {
                assert forall|k: int| 0 <= k < children@.len() implies (#[trigger] children@[k]).wf() by {
                    if k != j {
                        assert(children@[k] == ch0[k]);
                    }
                }
            }
        },
        None => {
            proof {
                lemma_push_child(ch0, c1);
            }
            children.push(c1);
            proof {
                assert forall|k: int| 0 <= k < children@.len() implies (#[trigger] children@[k]).wf() by {
                    if k < ch0.len() {
                        assert(children@[k] == ch0[k]);
                    }
                }
            }
        },
    }
    children
}

proof fn lemma_remove_child<T>(ch: Seq<CommandKey<T>>, j: int)
    requires
        distinct_keys(ch),
        forall|k: int| 0 <= k < ch.len() ==> (#[trigger] ch[k]).wf(),
        0 <= j < ch.len(),
    ensures
        distinct_keys(ch.remove(j)),
        forall|k: int| 0 <= k < ch.remove(j).len() ==> (#[trigger] ch.remove(j)[k]).wf(),
        forall|id: CommandKeyId| #[trigger]
            has_child(ch.remove(j), id) == (has_child(ch, id) && id != ch[j].key()),
        forall|id: CommandKeyId|
            id != ch[j].key() && has_child(ch, id) ==> #[trigger] child_at(ch.remove(j), id)
                == child_at(ch, id),
{
    let ch2 = ch.remove(j);
    assert forall|k: int| 0 <= k < ch2.len() implies ch2[k] == if k < j {
        ch[k]
    } else {
        ch[k + 1]
    } by {}
    assert forall|a: int, b: int|
        0 <= a < ch2.len() && 0 <= b < ch2.len() && a != b implies #[trigger] ch2[a].key()
        != #[trigger] ch2[b].key() by {
        let aa = if a < j { a } else { a + 1 };
        let bb = if b < j { b } else { b + 1 };
        assert(ch2[a] == ch[aa]);
        assert(ch2[b] == ch[bb]);
    }
    assert forall|k: int| 0 <= k < ch2.len() implies (#[trigger] ch2[k]).wf() by {
        let kk = if k < j { k } else { k + 1 };
        assert(ch2[k] == ch[kk]);
    }
    assert forall|id: CommandKeyId| #[trigger]
        has_child(ch2, id) == (has_child(ch, id) && id != ch[j].key()) by {
        if has_child(ch2, id) {
            let k = child_index(ch2, id);
            let kk = if k < j { k } else { k + 1 };
            assert(ch2[k] == ch[kk]);
            assert(ch[kk].key() == id);
        }
        if has_child(ch, id) && id != ch[j].key() {
            let k = child_index(ch, id);
            assert(k != j);
            let kk = if k < j { k } else { k - 1 };
            assert(ch2[kk] == ch[k]);
        }
    }
    assert forall|id: CommandKeyId|
        id != ch[j].key() && has_child(ch, id) implies #[trigger] child_at(ch2, id) == child_at(
        ch,
        id,
    ) by {
        let k = child_index(ch, id);
        lemma_child_at_index(ch, k);
        let kk = if k < j { k } else { k - 1 };
        assert(ch2[kk] == ch[k]);
        lemma_child_at_index(ch2, kk);
    }
}

/// The entries after the last step of a sequence set a command under `h`.
proof fn lemma_insert_last<T>(
    n: CommandKey<T>,
    n2: CommandKey<T>,
    s: Seq<CommandKeyId>,
    acts: Seq<Option<T>>,
    leaf: CommandKey<T>,
)
    requires
        n is Node,
        n2 is Node,
        n2.entry() == n.entry(),
        s.len() == 1,
        leaf is Leaf,
        leaf.key() == s[0],
        replaced_child(n.children(), n2.children(), s[0], leaf),
    ensures
        forall|p: Seq<CommandKeyId>| #[trigger]
            entry_at(n2, p) == inserted_entry(n, s, acts, Some(leaf.entry()), p),
{
    assert forall|p: Seq<CommandKeyId>| #[trigger]
        entry_at(n2, p) == inserted_entry(n, s, acts, Some(leaf.entry()), p) by {
        if p.len() > 0 {
            lemma_entry_step(n2, p);
            lemma_entry_step(n, p);
            lemma_prefix_step(s, p);
            if p[0] == s[0] {
                lemma_leaf_like_entries(leaf, p.drop_first());
                assert(s.drop_first().is_prefix_of(p.drop_first()));
            }
        }
    }
}

/// The entries after a middle step of a sequence follow from those of the
/// child that the rest of the sequence went into.
proof fn lemma_insert_step<T>(
    n: CommandKey<T>,
    n2: CommandKey<T>,
    s: Seq<CommandKeyId>,
    acts: Seq<Option<T>>,
    last: Option<Entry<T>>,
    c0: CommandKey<T>,
    c1: CommandKey<T>,
)
    requires
        n is Node,
        n2 is Node,
        n2.entry() == n.entry(),
        s.len() >= 2,
        acts.len() == s.len(),
        replaced_child(n.children(), n2.children(), s[0], c1),
        has_child(n.children(), s[0]) ==> c0 == child_at(n.children(), s[0]),
        !has_child(n.children(), s[0]) ==> c0 is Node && c0.children().len() == 0 && c0.entry()
            == Entry::<T>::Branch(acts[0]),
        forall|q: Seq<CommandKeyId>| #[trigger]
            entry_at(c1, q) == inserted_entry(c0, s.drop_first(), acts.drop_first(), last, q),
    ensures
        forall|p: Seq<CommandKeyId>| #[trigger]
            entry_at(n2, p) == inserted_entry(n, s, acts, last, p),
{
    assert forall|p: Seq<CommandKeyId>| #[trigger]
        entry_at(n2, p) == inserted_entry(n, s, acts, last, p) by {
        if p.len() > 0 {
            lemma_entry_step(n2, p);
            lemma_entry_step(n, p);
            lemma_prefix_step(s, p);
            if p[0] == s[0] {
                assert(entry_at(n2, p) == entry_at(c1, p.drop_first()));
                if !has_child(n.children(), s[0]) {
                    lemma_leaf_like_entries(c0, p.drop_first());
                }
            }
        }
    }
}

/// The entries stay as they were when the rest of the sequence left the
/// child unchanged.
proof fn lemma_insert_unchanged<T>(
    n: CommandKey<T>,
    n2: CommandKey<T>,
    h: CommandKeyId,
    c1: CommandKey<T>,
)
    requires
        n is Node,
        n2 is Node,
        n2.entry() == n.entry(),
        has_child(n.children(), h),
        replaced_child(n.children(), n2.children(), h, c1),
        forall|q: Seq<CommandKeyId>| #[trigger]
            entry_at(c1, q) == entry_at(child_at(n.children(), h), q),
    ensures
        forall|p: Seq<CommandKeyId>| #[trigger] entry_at(n2, p) == entry_at(n, p),
{
    assert forall|p: Seq<CommandKeyId>| #[trigger] entry_at(n2, p) == entry_at(n, p) by {
        if p.len() > 0 {
            lemma_entry_step(n2, p);
            lemma_entry_step(n, p);
        }
    }
}

/// Adds the steps `nodes[i..]` below `node`, which sits at depth `i`.
fn insert_at<T: Copy>(
    node: CommandKey<T>,
    nodes: &Vec<CommandKeyBuilder<T>>,
    i: usize,
    details: CommandDetails,
    action: Option<T>,
) -> (res: (CommandKey<T>, Result<(), String>))
    requires
        node.wf(),
        i < nodes@.len(),
    ensures
        res.0.wf(),
        res.0.key() == node.key(),
        res.0 is Node <==> node is Node,
        ({
            let s = step_ids(nodes@).skip(i as int);
            let acts = step_actions(nodes@).skip(i as int);
            if blocked(node, s) {
                &&& res.1 matches Err(e) && e@ == "Existing command in sequence."@
                &&& forall|p: Seq<CommandKeyId>| #[trigger] entry_at(res.0, p) == entry_at(node, p)
            } else if action is None {
                &&& res.1 matches Err(e) && e@ == "Missing command action."@
                &&& forall|p: Seq<CommandKeyId>| #[trigger]
                    entry_at(res.0, p) == inserted_entry(node, s, acts, None, p)
            } else {
                &&& res.1 is Ok
                &&& forall|p: Seq<CommandKeyId>| #[trigger]
                    entry_at(res.0, p) == inserted_entry(
                        node,
                        s,
                        acts,
                        Some(Entry::Command(details, action.unwrap())),
                        p,
                    )
            }
        }),
    decreases nodes@.len() - i,
{
    let ghost s = step_ids(nodes@).skip(i as int);
    let ghost acts = step_actions(nodes@).skip(i as int);
    let ghost old_node = node;
    proof {
        assert(s.len() == nodes@.len() - i);
        assert(acts.len() == nodes@.len() - i);
        assert(s[0] == nodes@[i as int].spec_id());
        assert(acts[0] == nodes@[i as int].spec_action());
    }
    match node {
        CommandKey::Leaf(c, m, d, a) => {
            proof {
                assert(s.take(0).len() == 0);
                assert(entry_at(old_node, s.take(0)) matches Some(Entry::Command(_, _)));
            }
            (CommandKey::Leaf(c, m, d, a), Err(existing_command_error()))
        },
        CommandKey::Node(c, m, children, a) => {
            let h = nodes[i].id();
            proof {
                lemma_blocked_step(old_node, s);
            }
            if i == nodes.len() - 1 {
                proof {
                    assert(s.drop_first().len() == 0);
                }
                match action {
                    Some(act) => {
                        let leaf = CommandKey::Leaf(nodes[i].code, nodes[i].mods, details, act);
                        let children = set_child(children, leaf);
                        let new_node = CommandKey::Node(c, m, children, a);
                        proof {
                            lemma_insert_last(old_node, new_node, s, acts, leaf);
                        }
                        (new_node, Ok(()))
                    },
                    None => {
                        let new_node = CommandKey::Node(c, m, children, a);
                        proof {
                            assert forall|p: Seq<CommandKeyId>| #[trigger]
                                entry_at(new_node, p) == inserted_entry(old_node, s, acts, None, p) by {
                                if p.len() > 0 {
                                    lemma_entry_step(new_node, p);
                                    lemma_entry_step(old_node, p);
                                }
                            }
                        }
                        (new_node, Err(missing_action_error()))
                    },
                }
            } else {
                let mut children = children;
                let ghost ch0 = children@;
                let child = match find_child(&children, h) {
                    Some(j) => {
                        proof {
                            lemma_child_at_index(ch0, j as int);
                            lemma_remove_child(ch0, j as int);
                        }
                        children.remove(j)
                    },
                    None => {
                        CommandKey::Node(nodes[i].code, nodes[i].mods, Vec::new(), nodes[i].action)
                    },
                };
                let ghost c0 = child;
                let ghost ch_rest = children@;
                let (new_child, r) = insert_at(child, nodes, i + 1, details, action);
                let children = set_child(children, new_child);
                let new_node = CommandKey::Node(c, m, children, a);
                proof {
                    assert(replaced_child(ch0, children@, h, new_child)) by {
                        assert forall|id: CommandKeyId| #[trigger] has_child(children@, id) == (
                        has_child(ch0, id) || id == h) by {
                            assert(has_child(children@, id) == (has_child(ch_rest, id) || id == h));
                        }
                        assert forall|id: CommandKeyId|
                            id != h && has_child(ch0, id) implies #[trigger] child_at(children@, id)
                            == child_at(ch0, id) by {
                            assert(has_child(ch_rest, id));
                            assert(child_at(children@, id) == child_at(ch_rest, id));
                        }
                    }
                    let s1 = step_ids(nodes@).skip(i + 1);
                    let acts1 = step_actions(nodes@).skip(i + 1);
                    assert(s1 =~= s.drop_first());
                    assert(acts1 =~= acts.drop_first());
                    if !has_child(old_node.children(), h) {
                        lemma_fresh_not_blocked(c0, s1);
                    }
                    if blocked(old_node, s) {
                        lemma_insert_unchanged(old_node, new_node, h, new_child);
                    } else if action is None {
                        lemma_insert_step(old_node, new_node, s, acts, None, c0, new_child);
                    } else {
                        lemma_insert_step(
                            old_node,
                            new_node,
                            s,
                            acts,
                            Some(Entry::Command(details, action.unwrap())),
                            c0,
                            new_child,
                        );
                    }
                }
                (new_node, r)
            }
        },
    }
}

impl<T: Copy> Commands<T> {
    /// Adds the command sequence that `builder` describes. A sequence that
    /// would run through an existing command is refused with nothing changed;
    /// one without an action is refused after its branches were added.
    pub fn insert(&mut self, builder: CommandSequenceBuilder<T>) -> (r: Result<(), String>)
        requires
            builder.spec_ids().len() >= 1,
        ensures
            ({
                let s = builder.spec_ids();
                let acts = builder.spec_actions();
                if blocked(old(self).root_node(), s) {
                    &&& r matches Err(e) && e@ == "Existing command in sequence."@
                    &&& forall|p: Seq<CommandKeyId>| #[trigger]
                        final(self).entry(p) == old(self).entry(p)
                } else if builder.spec_action() is None {
                    &&& r matches Err(e) && e@ == "Missing command action."@
                    &&& forall|p: Seq<CommandKeyId>| #[trigger]
                        final(self).entry(p) == inserted_entry(
                            old(self).root_node(),
                            s,
                            acts,
                            None,
                            p,
                        )
                } else {
                    &&& r is Ok
                    &&& forall|p: Seq<CommandKeyId>| #[trigger]
                        final(self).entry(p) == inserted_entry(
                            old(self).root_node(),
                            s,
                            acts,
                            Some(
                                Entry::Command(
                                    builder.spec_details(),
                                    builder.spec_action().unwrap(),
                                ),
                            ),
                            p,
                        )
                }
            }),
    {
        proof {
            use_type_invariant(&*self);
        }
        let CommandSequenceBuilder { nodes, details, action } = builder;
        proof {
            assert(step_ids(nodes@) =~= builder.spec_ids());
            assert(step_actions(nodes@) =~= builder.spec_actions());
            assert(step_ids(nodes@).skip(0) =~= step_ids(nodes@));
            assert(step_actions(nodes@).skip(0) =~= step_actions(nodes@));
        }
        let mut root = CommandKey::Node(KeyCode::Null, KeyModifiers::empty(), Vec::new(), None);
        std::mem::swap(&mut root, &mut self.root);
        let (new_root, r) = insert_at(root, &nodes, 0, details, action);
        self.root = new_root;
        r
    }
}

/// Following `path` the way removal does, from a node at depth `d`: the
/// depth at which the path runs out or reaches a command, and `lowest`
/// raised to the depth of each branch on the way that has more than one
/// child. `None` when a step finds no child.
pub open spec fn removal_walk<T>(node: CommandKey<T>, path: Seq<CommandKeyId>, d: nat, lowest: nat) -> Option<(nat, nat)>
    decreases path.len(),
{
    if path.len() == 0 {
        Some((d, lowest))
    } else {
        match node {
            CommandKey::Leaf(..) => Some((d, lowest)),
            CommandKey::Node(_, _, ch, _) => if has_child(ch@, path[0]) {
                removal_walk(
                    child_at(ch@, path[0]),
                    path.drop_first(),
                    d + 1,
                    if ch@.len() > 1 {
                        d
                    } else {
                        lowest
                    },
                )
            } else {
                None
            },
        }
    }
}

/// The prefix of `path` whose subtree `remove` takes out of the trie rooted
/// at `root`: the path up to the child, on the path, of the last branch with
/// several children (the whole first step when there is none), so that no
/// branch is left without children; provided the path is there, up to its
/// end or to a command on the way.
pub open spec fn removed_prefix<T>(root: CommandKey<T>, path: Seq<CommandKeyId>) -> Option<Seq<CommandKeyId>> {
    match removal_walk(root, path, 0, 0) {
        Some((m, l)) => if l < m {
            Some(path.take((l + 1) as int))
        } else {
            None
        },
        None => None,
    }
}

proof fn lemma_walk<T>(n: CommandKey<T>, path: Seq<CommandKeyId>, d: nat, l: nat)
    requires
        l <= d,
        removal_walk(n, path, d, l) is Some,
    ensures
        ({
            let (m, ll) = removal_walk(n, path, d, l).unwrap();
            &&& d <= m <= d + path.len()
            &&& ll <= m
            &&& ll < m ==> (ll < d ==> ll == l)
            &&& ll < m && ll >= d ==> (lookup(n, path.take(ll - d)) matches Some(
                CommandKey::Node(..),
            ))
            &&& m < d + path.len() ==> (lookup(n, path.take(m - d)) matches Some(
                CommandKey::Leaf(..),
            ))
            &&& ll < m && ll >= d && ll != l ==> (lookup(n, path.take(ll - d)) matches Some(
                CommandKey::Node(_, _, ch, _),
            ) && ch@.len() > 1)
        }),
    decreases path.len(),
{
    if path.len() > 0 {
        if let CommandKey::Node(_, _, ch, _) = n {
            let c = child_at(ch@, path[0]);
            let l2: nat = if ch@.len() > 1 {
                d
            } else {
                l
            };
            lemma_walk(c, path.drop_first(), d + 1, l2);
            let (m, ll) = removal_walk(n, path, d, l).unwrap();
            if ll < m && ll >= d + 1 {
                let k = ll - d;
                assert(path.take(k)[0] == path[0]);
                assert(path.take(k).drop_first() =~= path.drop_first().take(k - 1));
            }
            if ll < m && ll == d {
                assert(path.take(0).len() == 0);
            }
            if m < d + path.len() {
                let k = m - d;
                assert(k >= 1);
                assert(path.take(k)[0] == path[0]);
                assert(path.take(k).drop_first() =~= path.drop_first().take(k - 1));
            }
        } else {
            assert(path.take(0).len() == 0);
        }
    }
}

/// Takes out of `node`, which sits at depth `j` of the path `ids`, the
/// subtree at depth `lowest + 1` along the path.
fn remove_at<T>(node: CommandKey<T>, ids: &Vec<CommandKeyId>, j: usize, lowest: usize) -> (r: CommandKey<T>)
    requires
        node.wf(),
        j <= lowest,
        j <= ids@.len(),
    ensures
        r.wf(),
        r.key() == node.key(),
        r is Node <==> node is Node,
        ({
            let cond = lowest < ids@.len() && lookup(node, ids@.subrange(j as int, lowest as int)) matches Some(
                CommandKey::Node(..),
            );
            forall|p: Seq<CommandKeyId>| #[trigger]
                entry_at(r, p) == if cond && ids@.subrange(j as int, lowest + 1).is_prefix_of(p) {
                    None
                } else {
                    entry_at(node, p)
                }
        }),
    decreases ids@.len() - j,
{
    let ghost old_node = node;
    if j == ids.len() {
        proof {
            assert(!(lowest < ids@.len()));
        }
        return node;
    }
    match node {
        CommandKey::Leaf(c, m, d, a) => {
            proof {
                if lowest < ids@.len() {
                    if j < lowest {
                        let q = ids@.subrange(j as int, lowest as int);
                        assert(q.len() > 0);
                    } else {
                        assert(ids@.subrange(j as int, lowest as int).len() == 0);
                    }
                }
            }
            CommandKey::Leaf(c, m, d, a)
        },
        CommandKey::Node(c, m, children, a) => {
            let h = ids[j];
            let mut children = children;
            let ghost ch0 = children@;
            if j == lowest {
                match find_child(&children, h) {
                    Some(k) => {
                        proof {
                            lemma_child_at_index(ch0, k as int);
                            lemma_remove_child(ch0, k as int);
                        }
                        children.remove(k);
                    },
                    None => {},
                }
                let new_node = CommandKey::Node(c, m, children, a);
                proof {
                    let q = ids@.subrange(j as int, lowest + 1);
                    assert(q.len() == 1 && q[0] == h);
                    assert(ids@.subrange(j as int, lowest as int).len() == 0);
                    assert forall|p: Seq<CommandKeyId>| #[trigger]
                        entry_at(new_node, p) == if q.is_prefix_of(p) {
                            None
                        } else {
                            entry_at(old_node, p)
                        } by {
                        if p.len() > 0 {
                            lemma_entry_step(new_node, p);
                            lemma_entry_step(old_node, p);
                            lemma_prefix_step(q, p);
                            if p[0] == h {
                                assert(q.drop_first().is_prefix_of(p.drop_first()));
                            }
                        } else {
                            assert(!q.is_prefix_of(p));
                        }
                    }
                }
                new_node
            } else {
                match find_child(&children, h) {
                    None => {
                        let new_node = CommandKey::Node(c, m, children, a);
                        proof {
                            let q = ids@.subrange(j as int, lowest as int);
                            if lowest < ids@.len() {
                                assert(q[0] == h);
                                assert(lookup(old_node, q) is None);
                            }
                        }
                        new_node
                    },
                    Some(k) => {
                        proof {
                            lemma_child_at_index(ch0, k as int);
                            lemma_remove_child(ch0, k as int);
                        }
                        let child = children.remove(k);
                        let ghost c0 = child;
                        let ghost ch_rest = children@;
                        let new_child = remove_at(child, ids, j + 1, lowest);
                        let children = set_child(children, new_child);
                        let new_node = CommandKey::Node(c, m, children, a);
                        proof {
                            assert(replaced_child(ch0, children@, h, new_child)) by {
                                assert forall|id: CommandKeyId| #[trigger] has_child(children@, id) == (
                                has_child(ch0, id) || id == h) by {
                                    assert(has_child(children@, id) == (has_child(ch_rest, id) || id == h));
                                }
                                assert forall|id: CommandKeyId|
                                    id != h && has_child(ch0, id) implies #[trigger] child_at(children@, id)
                                    == child_at(ch0, id) by {
                                    assert(has_child(ch_rest, id));
                                    assert(child_at(children@, id) == child_at(ch_rest, id));
                                }
                            }
                            let q = ids@.subrange(j as int, lowest + 1);
                            let q1 = ids@.subrange(j + 1, lowest + 1);
                            let r0 = ids@.subrange(j as int, lowest as int);
                            let r1 = ids@.subrange(j + 1, lowest as int);
                            let cond = lowest < ids@.len() && lookup(old_node, r0) matches Some(
                                CommandKey::Node(..),
                            );
                            let cond1 = lowest < ids@.len() && lookup(c0, r1) matches Some(
                                CommandKey::Node(..),
                            );
                            if lowest < ids@.len() {
                                assert(r0[0] == h);
                                assert(r0.drop_first() =~= r1);
                                assert(cond == cond1);
                                assert(q[0] == h);
                                assert(q.drop_first() =~= q1);
                            }
                            assert forall|p: Seq<CommandKeyId>| #[trigger]
                                entry_at(new_node, p) == if cond && q.is_prefix_of(p) {
                                    None
                                } else {
                                    entry_at(old_node, p)
                                } by {
                                if p.len() > 0 {
                                    lemma_entry_step(new_node, p);
                                    lemma_entry_step(old_node, p);
                                    if lowest < ids@.len() {
                                        lemma_prefix_step(q, p);
                                    }
                                } else {
                                    if lowest < ids@.len() {
                                        assert(!q.is_prefix_of(p));
                                    }
                                }
                            }
                        }
                        new_node
                    },
                }
            }
        },
    }
}

impl<T: Copy> Commands<T> {
    /// Takes out of the trie the subtree at `removed_prefix` of the key
    /// sequence that `builder` describes: the whole branch that leads only
    /// to it, from the child of the last branch on the way with several
    /// children (from the first key when there is none). No branch on the
    /// way is left without children (`lemma_removal_prunes`). Where there
    /// is no such prefix (the sequence is not there), the trie stays as it
    /// is.
    pub fn remove(&mut self, builder: CommandSequenceBuilder<T>) -> (r: Result<(), String>)
        ensures
            r is Ok,
            forall|p: Seq<CommandKeyId>| #[trigger]
                final(self).entry(p) == match removed_prefix(old(self).root_node(), builder.spec_ids()) {
                    Some(q) => if q.is_prefix_of(p) {
                        None
                    } else {
                        old(self).entry(p)
                    },
                    None => old(self).entry(p),
                },
    {
        proof {
            use_type_invariant(&*self);
        }
        let CommandSequenceBuilder { nodes, details: _, action: _ } = builder;
        let mut ids: Vec<CommandKeyId> = Vec::new();
        let mut t: usize = 0;
        while t < nodes.len()
            invariant
                t <= nodes@.len(),
                ids@ =~= step_ids(nodes@).take(t as int),
            decreases nodes@.len() - t,
        {
            ids.push(nodes[t].id());
            t = t + 1;
        }
        proof {
            assert(ids@ =~= builder.spec_ids());
        }
        // First pass: find how deep the removal happens, or that the
        // sequence is not there.
        let mut index: usize = 0;
        let mut lowest: usize = 0;
        let mut current: &CommandKey<T> = &self.root;
        let mut i: usize = 0;
        assert(ids@.skip(0) =~= ids@);
        while i < ids.len()
            invariant
                i <= ids@.len(),
                ids@ == builder.spec_ids(),
                index <= i,
                lowest <= index,
                current.wf(),
                removal_walk(self.root, ids@, 0, 0) == removal_walk(
                    *current,
                    ids@.skip(i as int),
                    index as nat,
                    lowest as nat,
                ),
            decreases ids@.len() - i,
        {
            proof {
                assert(ids@.skip(i as int)[0] == ids@[i as int]);
                assert(ids@.skip(i as int).drop_first() =~= ids@.skip(i + 1));
            }
            match current {
                CommandKey::Node(_, _, children, _) => {
                    match find_child(children, ids[i]) {
                        None => {
                            proof {
                                assert(removal_walk(
                                    *current,
                                    ids@.skip(i as int),
                                    index as nat,
                                    lowest as nat,
                                ) is None);
                            }
                            return Ok(());
                        },
                        Some(k) => {
                            proof {
                                lemma_child_at_index(children@, k as int);
                            }
                            if children.len() > 1 {
                                lowest = index;
                            }
                            index = index + 1;
                            current = &children[k];
                        },
                    }
                },
                CommandKey::Leaf(..) => {},
            }
            i = i + 1;
        }
        proof {
            assert(ids@.skip(i as int).len() == 0);
            lemma_walk(self.root, ids@, 0, 0);
            assert(ids@.subrange(0, lowest as int) =~= ids@.take(lowest as int));
            assert(ids@.subrange(0, lowest + 1) =~= ids@.take((lowest + 1) as int));
        }
        // Second pass: take the subtree out.
        let mut root = CommandKey::Node(KeyCode::Null, KeyModifiers::empty(), Vec::new(), None);
        std::mem::swap(&mut root, &mut self.root);
        let ghost old_root = root;
        let new_root = remove_at(root, &ids, 0, lowest);
        self.root = new_root;
        proof {
            if lowest < index {
                assert(lowest < ids@.len());
            } else if lowest < ids@.len() {
                if index < ids@.len() {
                    assert(lookup(old_root, ids@.take(index as int)) matches Some(CommandKey::Leaf(..)));
                }
            }
        }
        Ok(())
    }
}

/// Looking keys up the way a key press does finds every node that the keys
/// lead to exactly: an exact child always wins over a catch-all one.
pub proof fn lemma_lookup_resolves<T>(node: CommandKey<T>, path: Seq<CommandKeyId>)
    requires
        lookup(node, path) is Some,
    ensures
        resolve(node, path) == lookup(node, path),
    decreases path.len(),
{
    if path.len() > 0 {
        if let CommandKey::Node(_, _, ch, _) = node {
            lemma_lookup_resolves(child_at(ch@, path[0]), path.drop_first());
        }
    }
}

/// What a trie holds as a command at some keys is what pressing those keys
/// gives: the end of a sequence, with the command's action.
pub proof fn lemma_command_found<T>(c: Commands<T>, path: Seq<CommandKeyId>, d: CommandDetails, a: T)
    requires
        c.entry(path) == Some(Entry::Command(d, a)),
    ensures
        resolve(c.root_node(), path) matches Some(n) && node_result(n) == (true, Some(a)),
{
    lemma_lookup_resolves(c.root_node(), path);
}

/// Removing keys that leave the trie before they end, without passing a
/// command, takes nothing out.
pub proof fn lemma_absent_removal<T>(node: CommandKey<T>, path: Seq<CommandKeyId>, d: nat, l: nat)
    requires
        lookup(node, path) is None,
        forall|k: int| 0 <= k < path.len() ==> !(#[trigger] lookup(node, path.take(k)) matches Some(CommandKey::Leaf(..))),
    ensures
        removal_walk(node, path, d, l) is None,
    decreases path.len(),
{
    assert(path.take(0) =~= Seq::<CommandKeyId>::empty());
    if path.len() > 0 {
        if let CommandKey::Node(_, _, ch, _) = node {
            if has_child(ch@, path[0]) {
                let child = child_at(ch@, path[0]);
                let rest = path.drop_first();
                assert forall|k: int| 0 <= k < rest.len() implies !(#[trigger] lookup(child, rest.take(k)) matches Some(CommandKey::Leaf(..))) by {
                    assert(path.take(k + 1).drop_first() =~= rest.take(k));
                    assert(path.take(k + 1)[0] == path[0]);
                    assert(!(lookup(node, path.take(k + 1)) matches Some(CommandKey::Leaf(..))));
                }
                let l2: nat = if ch@.len() > 1 {
                    d
                } else {
                    l
                };
                lemma_absent_removal(child, rest, d + 1, l2);
            }
        } else {
            assert(lookup(node, path.take(0)) matches Some(CommandKey::Leaf(..)));
        }
    }
}

/// What `remove` takes out is a prefix of the keys it was given, so those
/// keys hold nothing afterwards.
pub proof fn lemma_removed_prefix_is_prefix<T>(root: CommandKey<T>, path: Seq<CommandKeyId>)
    requires
        removed_prefix(root, path) is Some,
    ensures
        removed_prefix(root, path) matches Some(q) && q.is_prefix_of(path),
{
    lemma_walk(root, path, 0, 0);
    let (m, l) = removal_walk(root, path, 0, 0).unwrap();
    assert(path.take((l + 1) as int) =~= path.subrange(0, (l + 1) as int));
}

/// What a finding holds: a branch does not end a command and carries its
/// action; a command ends one and runs its action.
pub open spec fn entry_result<T>(e: Entry<T>) -> (bool, Option<T>) {
    match e {
        Entry::Branch(a) => (false, a),
        Entry::Command(_, a) => (true, Some(a)),
    }
}

/// What pressing keys finds, as `Commands::get` reports it.
pub open spec fn pressed<T>(c: Commands<T>, path: Seq<CommandKeyId>) -> Option<(bool, Option<T>)> {
    match resolve(c.root_node(), path) {
        Some(n) => Some(node_result(n)),
        None => None,
    }
}

proof fn lemma_lookup_push<T>(node: CommandKey<T>, q: Seq<CommandKeyId>, id: CommandKeyId)
    requires
        lookup(node, q) is Some,
    ensures
        lookup(node, q.push(id)) == match lookup(node, q).unwrap() {
            CommandKey::Node(_, _, ch, _) => if has_child(ch@, id) { Some(child_at(ch@, id)) } else { None },
            CommandKey::Leaf(..) => None,
        },
    decreases q.len(),
{
    let p = q.push(id);
    if q.len() == 0 {
        assert(p.drop_first() =~= Seq::<CommandKeyId>::empty());
        if let CommandKey::Node(_, _, ch, _) = node {
            if has_child(ch@, id) {
                assert(lookup(child_at(ch@, id), p.drop_first()) == Some(child_at(ch@, id)));
            }
        }
    } else {
        assert(p[0] == q[0]);
        assert(p.drop_first() =~= q.drop_first().push(id));
        if let CommandKey::Node(_, _, ch, _) = node {
            assert(lookup(node, q) == lookup(child_at(ch@, q[0]), q.drop_first()));
            assert(lookup(node, p) == lookup(child_at(ch@, q[0]), p.drop_first()));
            lemma_lookup_push(child_at(ch@, q[0]), q.drop_first(), id);
        }
    }
}

proof fn lemma_resolve_push<T>(node: CommandKey<T>, q: Seq<CommandKeyId>, id: CommandKeyId)
    requires
        lookup(node, q) matches Some(n) && n is Node,
    ensures
        resolve(node, q.push(id)) == {
            let ch = lookup(node, q).unwrap().children();
            if has_child(ch, id) {
                Some(child_at(ch, id))
            } else if has_child(ch, catch_all_id(id)) {
                Some(child_at(ch, catch_all_id(id)))
            } else {
                None
            }
        },
    decreases q.len(),
{
    let p = q.push(id);
    if q.len() == 0 {
        assert(p.drop_first() =~= Seq::<CommandKeyId>::empty());
        if let CommandKey::Node(_, _, ch, _) = node {
            if has_child(ch@, id) {
                assert(resolve(child_at(ch@, id), p.drop_first()) == Some(child_at(ch@, id)));
            } else if has_child(ch@, catch_all_id(id)) {
                assert(resolve(child_at(ch@, catch_all_id(id)), p.drop_first()) == Some(child_at(ch@, catch_all_id(id))));
            }
        }
    } else {
        assert(p[0] == q[0]);
        assert(p.drop_first() =~= q.drop_first().push(id));
        if let CommandKey::Node(_, _, ch, _) = node {
            assert(lookup(node, q) == lookup(child_at(ch@, q[0]), q.drop_first()));
            assert(resolve(node, p) == resolve(child_at(ch@, q[0]), p.drop_first()));
            lemma_resolve_push(child_at(ch@, q[0]), q.drop_first(), id);
        }
    }
}

/// Pressing keys that the trie holds exactly finds what it holds there.
pub proof fn lemma_pressed_found<T>(c: Commands<T>, path: Seq<CommandKeyId>)
    requires
        c.entry(path) is Some,
    ensures
        pressed(c, path) == Some(entry_result(c.entry(path).unwrap())),
{
    lemma_lookup_resolves(c.root_node(), path);
}

/// Pressing one more key after keys that lead exactly to a branch finds
/// what the branch holds under that key; where it holds nothing there, what
/// it holds under the catch-all key with the same modifiers; where it holds
/// neither, nothing.
pub proof fn lemma_pressed_next<T>(c: Commands<T>, q: Seq<CommandKeyId>, id: CommandKeyId)
    requires
        c.entry(q) matches Some(Entry::Branch(_)),
    ensures
        pressed(c, q.push(id)) == if c.entry(q.push(id)) is Some {
            Some(entry_result(c.entry(q.push(id)).unwrap()))
        } else if c.entry(q.push(catch_all_id(id))) is Some {
            Some(entry_result(c.entry(q.push(catch_all_id(id))).unwrap()))
        } else {
            None
        },
{
    let root = c.root_node();
    lemma_resolve_push(root, q, id);
    lemma_lookup_push(root, q, id);
    lemma_lookup_push(root, q, catch_all_id(id));
}

/// Adding a key sequence keeps every sequence that the trie held before:
/// each holds and finds what it did, unless it starts with the added
/// sequence and that sequence came with its command, which pressing the
/// added keys then finds.
pub proof fn lemma_insert_keeps<T>(
    before: Commands<T>,
    after: Commands<T>,
    s: Seq<CommandKeyId>,
    acts: Seq<Option<T>>,
    last: Option<Entry<T>>,
)
    requires
        s.len() >= 1,
        forall|p: Seq<CommandKeyId>| #[trigger] after.entry(p) == inserted_entry(before.root_node(), s, acts, last, p),
    ensures
        forall|q: Seq<CommandKeyId>| before.entry(q) is Some && !(last is Some && s.is_prefix_of(q)) ==> {
            &&& #[trigger] after.entry(q) == before.entry(q)
            &&& pressed(after, q) == pressed(before, q)
        },
        last is Some ==> after.entry(s) == last && pressed(after, s) == Some(entry_result(last.unwrap())),
{
    assert forall|q: Seq<CommandKeyId>| before.entry(q) is Some && !(last is Some && s.is_prefix_of(q)) implies {
        &&& #[trigger] after.entry(q) == before.entry(q)
        &&& pressed(after, q) == pressed(before, q)
    } by {
        assert(after.entry(q) == inserted_entry(before.root_node(), s, acts, last, q));
        lemma_pressed_found(before, q);
        lemma_pressed_found(after, q);
    }
    if last is Some {
        assert(s.is_prefix_of(s));
        assert(after.entry(s) == inserted_entry(before.root_node(), s, acts, last, s));
        lemma_pressed_found(after, s);
    }
}

/// A refused key sequence leaves every sequence that the trie held finding
/// what it found before.
pub proof fn lemma_unchanged_keeps<T>(before: Commands<T>, after: Commands<T>)
    requires
        forall|p: Seq<CommandKeyId>| #[trigger] after.entry(p) == before.entry(p),
    ensures
        forall|q: Seq<CommandKeyId>| before.entry(q) is Some ==> #[trigger] pressed(after, q) == pressed(before, q),
{
    assert forall|q: Seq<CommandKeyId>| before.entry(q) is Some implies #[trigger] pressed(after, q) == pressed(before, q) by {
        assert(after.entry(q) == before.entry(q));
        lemma_pressed_found(before, q);
        lemma_pressed_found(after, q);
    }
}

proof fn lemma_lookup_wf<T>(n: CommandKey<T>, p: Seq<CommandKeyId>)
    requires
        n.wf(),
        lookup(n, p) is Some,
    ensures
        lookup(n, p).unwrap().wf(),
    decreases p.len(),
{
    if p.len() > 0 {
        if let CommandKey::Node(_, _, ch, _) = n {
            let k = child_index(ch@, p[0]);
            assert(0 <= k < ch@.len() && ch@[k].key() == p[0]);
            assert(ch@[k].wf());
            lemma_lookup_wf(child_at(ch@, p[0]), p.drop_first());
        }
    }
}

proof fn lemma_lookup_prefix<T>(n: CommandKey<T>, p: Seq<CommandKeyId>, j: int)
    requires
        lookup(n, p) is Some,
        0 <= j <= p.len(),
    ensures
        lookup(n, p.take(j)) is Some,
    decreases p.len(),
{
    if j > 0 {
        if let CommandKey::Node(_, _, ch, _) = n {
            assert(p.take(j)[0] == p[0]);
            assert(p.take(j).drop_first() =~= p.drop_first().take(j - 1));
            lemma_lookup_prefix(child_at(ch@, p[0]), p.drop_first(), j - 1);
        }
    } else {
        assert(p.take(0).len() == 0);
    }
}

/// Removal leaves no branch on the way without children: each non-empty
/// prefix of the keys above the subtree that `remove` takes out keeps a
/// child outside that subtree.
pub proof fn lemma_removal_prunes<T>(c: Commands<T>, s: Seq<CommandKeyId>, k: int)
    requires
        c.wf(),
        removed_prefix(c.root_node(), s) matches Some(q) && 1 <= k < q.len(),
    ensures
        exists|id: CommandKeyId| {
            &&& #[trigger] c.entry(s.take(k).push(id)) is Some
            &&& !removed_prefix(c.root_node(), s).unwrap().is_prefix_of(s.take(k).push(id))
        },
{
    let root = c.root_node();
    lemma_walk(root, s, 0, 0);
    let (m, l) = removal_walk(root, s, 0, 0).unwrap();
    let q = removed_prefix(root, s).unwrap();
    assert(q == s.take((l + 1) as int));
    assert(k <= l);
    let above = s.take(l as int);
    let n = lookup(root, above).unwrap();
    if k < l {
        let id = s[k];
        assert(s.take(k).push(id) =~= above.take(k + 1));
        lemma_lookup_prefix(root, above, k + 1);
        assert(c.entry(s.take(k).push(id)) is Some);
        assert(!q.is_prefix_of(s.take(k).push(id)));
    } else {
        lemma_lookup_wf(root, above);
        let ch = n.children();
        assert(ch.len() > 1);
        let id = if ch[0].key() != s[l as int] { ch[0].key() } else { ch[1].key() };
        assert(id != s[l as int]);
        assert(has_child(ch, id)) by {
            if ch[0].key() != s[l as int] {
                assert(ch[0].key() == id);
            } else {
                assert(ch[1].key() == id);
            }
        }
        lemma_lookup_push(root, above, id);
        assert(s.take(k) =~= above);
        assert(c.entry(s.take(k).push(id)) is Some);
        assert(s.take(k).push(id)[l as int] == id);
        assert(q[l as int] == s[l as int]);
        if q.is_prefix_of(s.take(k).push(id)) {
            assert(s.take(k).push(id).subrange(0, q.len() as int)[l as int] == q[l as int]);
        }
    }
}

} // verus!
