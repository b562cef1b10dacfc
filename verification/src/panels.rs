use vstd::prelude::*;

use crate::text::{
    fresh_panel, PanelKind, TextPanel, TextPanelModel, EDIT_PANEL_TYPE_ID,
    MESSAGE_PANEL_TYPE_ID, NULL_PANEL_TYPE_ID,
};
use crate::text_util::str_eq;

verus! {

/// The store of panel contents. A removed panel leaves an empty slot, which
/// the next panel added fills.
pub struct Panels {
    panels: Vec<TextPanel>,
}

pub open spec fn panels_view(panels: Seq<TextPanel>) -> Seq<TextPanelModel> {
    panels.map_values(|p: TextPanel| p@)
}

impl View for Panels {
    type V = Seq<TextPanelModel>;

    closed spec fn view(&self) -> Seq<TextPanelModel> {
        panels_view(self.panels@)
    }
}

/// The first empty slot of a store, if any.
pub open spec fn first_null_slot(ps: Seq<TextPanelModel>) -> Option<int> {
    if exists|i: int| 0 <= i < ps.len() && (#[trigger] ps[i]).kind == PanelKind::Null {
        Some(
            choose|i: int|
                0 <= i < ps.len() && (#[trigger] ps[i]).kind == PanelKind::Null && forall|j: int|
                    0 <= j < i ==> (#[trigger] ps[j]).kind != PanelKind::Null,
        )
    } else {
        None
    }
}

/// Where `push` puts a panel, and the store afterwards.
pub open spec fn pushed(ps: Seq<TextPanelModel>, p: TextPanelModel) -> (int, Seq<TextPanelModel>) {
    match first_null_slot(ps) {
        Some(i) => (i, ps.update(i, p)),
        None => (ps.len() as int, ps.push(p)),
    }
}

proof fn lemma_first_null_slot(ps: Seq<TextPanelModel>, i: int)
    requires
        0 <= i < ps.len(),
        ps[i].kind == PanelKind::Null,
        forall|j: int| 0 <= j < i ==> (#[trigger] ps[j]).kind != PanelKind::Null,
    ensures
        first_null_slot(ps) == Some(i),
{
    let k = choose|k: int|
        0 <= k < ps.len() && (#[trigger] ps[k]).kind == PanelKind::Null && forall|j: int|
            0 <= j < k ==> (#[trigger] ps[j]).kind != PanelKind::Null;
    assert(0 <= k < ps.len() && ps[k].kind == PanelKind::Null && forall|j: int|
        0 <= j < k ==> (#[trigger] ps[j]).kind != PanelKind::Null) by {
        assert(0 <= i < ps.len() && (#[trigger] ps[i]).kind == PanelKind::Null && forall|j: int|
            0 <= j < i ==> (#[trigger] ps[j]).kind != PanelKind::Null);
    }
    if k < i {
        assert(ps[k].kind != PanelKind::Null);
    }
    if i < k {
        assert(ps[i].kind != PanelKind::Null);
    }
}

impl Panels {
    pub fn new() -> (p: Self)
        ensures
            p@ == Seq::<TextPanelModel>::empty(),
    {
        let p = Panels { panels: Vec::new() };
        assert(p@ =~= Seq::<TextPanelModel>::empty());
        p
    }

    pub fn len(&self) -> (r: usize)
        ensures
            r == self@.len(),
    {
        self.panels.len()
    }

    /// Stores a panel in the first empty slot, or at the end when there is
    /// none, and gives its index.
    pub fn push(&mut self, panel: TextPanel) -> (r: usize)
        ensures
            r == pushed(old(self)@, panel@).0,
            final(self)@ == pushed(old(self)@, panel@).1,
    {
        let ghost ps = self@;
        let mut i: usize = 0;
        while i < self.panels.len()
            invariant
                i <= self.panels@.len(),
                self@ == ps,
                ps == old(self)@,
                forall|j: int| 0 <= j < i ==> (#[trigger] ps[j]).kind != PanelKind::Null,
            decreases self.panels@.len() - i,
        {
            let k = self.panels[i].kind();
            proof {
                assert(ps[i as int] == self.panels@[i as int]@);
            }
            if k == PanelKind::Null {
                proof {
                    lemma_first_null_slot(ps, i as int);
                }
                let ghost pv = panel@;
                self.panels.set(i, panel);
                proof {
                    assert(self@ =~= ps.update(i as int, pv));
                }
                return i;
            }
            i = i + 1;
        }
        let ghost pv = panel@;
        self.panels.push(panel);
        proof {
            assert(self@ =~= ps.push(pv));
        }
        self.panels.len() - 1
    }

    /// Empties the slot at `index`, when there is one.
    pub fn remove(&mut self, index: usize)
        ensures
            final(self)@ == if index < old(self)@.len() {
                old(self)@.update(index as int, fresh_panel(PanelKind::Null))
            } else {
                old(self)@
            },
    {
        if index < self.panels.len() {
            let ghost ps = self@;
            self.panels.set(index, TextPanel::default());
            proof {
                assert(self@ =~= ps.update(index as int, fresh_panel(PanelKind::Null)));
            }
        }
    }

    pub fn get(&self, index: usize) -> (r: Option<&TextPanel>)
        ensures
            match r {
                Some(p) => index < self@.len() && p@ == self@[index as int],
                None => index >= self@.len(),
            },
    {
        if index < self.panels.len() {
            Some(&self.panels[index])
        } else {
            None
        }
    }

    pub fn get_mut(&mut self, index: usize) -> (r: Option<&mut TextPanel>)
        ensures
            match r {
                Some(p) => {
                    &&& index < old(self)@.len()
                    &&& p@ == old(self)@[index as int]
                    &&& final(self)@ == old(self)@.update(index as int, final(p)@)
                },
                None => index >= old(self)@.len() && final(self)@ == old(self)@,
            },
    {
        if index < self.panels.len() {
            Some(&mut self.panels[index])
        } else {
            None
        }
    }
}

/// Makes panels of the kinds the user can ask for.
pub struct PanelFactory {}

impl PanelFactory {
    /// The type names the user can ask for.
    pub fn options() -> (r: Vec<&'static str>)
        ensures
            r@.len() == 3,
            r@[0]@ == NULL_PANEL_TYPE_ID@,
            r@[1]@ == EDIT_PANEL_TYPE_ID@,
            r@[2]@ == MESSAGE_PANEL_TYPE_ID@,
    {
        let mut r = Vec::new();
        r.push(NULL_PANEL_TYPE_ID);
        r.push(EDIT_PANEL_TYPE_ID);
        r.push(MESSAGE_PANEL_TYPE_ID);
        r
    }

    /// A fresh panel of the named type, for the type names of `options`.
    pub fn panel(type_id: &str) -> (r: Option<TextPanel>)
        ensures
            match r {
                Some(p) => (type_id@ == NULL_PANEL_TYPE_ID@ && p@ == fresh_panel(PanelKind::Null)) || (
                type_id@ == EDIT_PANEL_TYPE_ID@ && p@ == fresh_panel(PanelKind::Edit)) || (type_id@
                    == MESSAGE_PANEL_TYPE_ID@ && p@ == fresh_panel(PanelKind::Messages)),
                None => type_id@ != NULL_PANEL_TYPE_ID@ && type_id@ != EDIT_PANEL_TYPE_ID@
                    && type_id@ != MESSAGE_PANEL_TYPE_ID@,
            },
    {
        if str_eq(type_id, NULL_PANEL_TYPE_ID) {
            Some(TextPanel::default())
        } else if str_eq(type_id, EDIT_PANEL_TYPE_ID) {
            Some(TextPanel::edit_panel())
        } else if str_eq(type_id, MESSAGE_PANEL_TYPE_ID) {
            Some(TextPanel::messages_panel())
        } else {
            None
        }
    }

    pub fn null() -> (p: TextPanel)
        ensures
            p@ == fresh_panel(PanelKind::Null),
    {
        TextPanel::default()
    }

    pub fn input() -> (p: TextPanel)
        ensures
            p@ == fresh_panel(PanelKind::Input),
    {
        TextPanel::input_panel()
    }

    pub fn messages() -> (p: TextPanel)
        ensures
            p@ == fresh_panel(PanelKind::Messages),
    {
        TextPanel::messages_panel()
    }

    pub fn edit() -> (p: TextPanel)
        ensures
            p@ == fresh_panel(PanelKind::Edit),
    {
        TextPanel::edit_panel()
    }
}


/// A panel pushed after removing the one at `i` takes slot `i`, when no
/// slot before it is empty.
pub proof fn lemma_push_reuses_removed_slot(ps: Seq<TextPanelModel>, i: int, p: TextPanelModel)
    requires
        0 <= i < ps.len(),
        forall|j: int| 0 <= j < i ==> (#[trigger] ps[j]).kind != PanelKind::Null,
    ensures
        pushed(ps.update(i, fresh_panel(PanelKind::Null)), p) == (i, ps.update(i, p)),
{
    let removed = ps.update(i, fresh_panel(PanelKind::Null));
    assert forall|j: int| 0 <= j < i implies (#[trigger] removed[j]).kind != PanelKind::Null by {
        assert(removed[j] == ps[j]);
    }
    lemma_first_null_slot(removed, i);
    assert(removed.update(i, p) =~= ps.update(i, p));
}


/// Where `push` puts a panel is a slot of the store afterwards, holding the
/// panel; the store does not shrink, and slots that held panels keep them.
pub proof fn lemma_pushed(ps: Seq<TextPanelModel>, p: TextPanelModel)
    ensures
        0 <= pushed(ps, p).0 < pushed(ps, p).1.len(),
        ps.len() <= pushed(ps, p).1.len() <= ps.len() + 1,
        pushed(ps, p).1[pushed(ps, p).0] == p,
        forall|j: int| 0 <= j < ps.len() && (#[trigger] ps[j]).kind != PanelKind::Null ==> pushed(ps, p).1[j] == ps[j],
{
    if exists|i: int| 0 <= i < ps.len() && (#[trigger] ps[i]).kind == PanelKind::Null {
        let i = choose|i: int| 0 <= i < ps.len() && (#[trigger] ps[i]).kind == PanelKind::Null;
        let k = choose|k: int|
            0 <= k < ps.len() && (#[trigger] ps[k]).kind == PanelKind::Null && forall|j: int|
                0 <= j < k ==> (#[trigger] ps[j]).kind != PanelKind::Null;
        assert(0 <= k < ps.len() && ps[k].kind == PanelKind::Null) by {
            // the least empty slot exists
            lemma_least_null(ps, i);
        }
    }
}

proof fn lemma_least_null(ps: Seq<TextPanelModel>, i: int)
    requires
        0 <= i < ps.len(),
        ps[i].kind == PanelKind::Null,
    ensures
        exists|k: int|
            0 <= k < ps.len() && (#[trigger] ps[k]).kind == PanelKind::Null && forall|j: int|
                0 <= j < k ==> (#[trigger] ps[j]).kind != PanelKind::Null,
    decreases i,
{
    if exists|j: int| 0 <= j < i && (#[trigger] ps[j]).kind == PanelKind::Null {
        let j = choose|j: int| 0 <= j < i && (#[trigger] ps[j]).kind == PanelKind::Null;
        lemma_least_null(ps, j);
    } else {
        assert(0 <= i < ps.len() && (#[trigger] ps[i]).kind == PanelKind::Null && forall|j: int|
            0 <= j < i ==> (#[trigger] ps[j]).kind != PanelKind::Null);
    }
}

} // verus!
