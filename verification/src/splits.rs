use vstd::prelude::*;

verus! {

/// The direction in which a split lays out its children.
#[derive(Debug, Clone, Copy, PartialEq, Eq, Structural, Hash)]
pub enum Direction {
    Horizontal,
    Vertical,
}

/// A child of a split: another split, or a layout panel, by index.
#[derive(Debug, Clone, Copy, PartialEq, Eq, Structural, Hash)]
pub enum UserSplits {
    Split(usize),
    Panel(usize),
}

/// A group of panels and nested splits laid out in one direction.
#[derive(Debug)]
pub struct PanelSplit {
    pub direction: Direction,
    pub panels: Vec<UserSplits>,
}

/// A split as a value: its direction and its children.
pub struct PanelSplitModel {
    pub direction: Direction,
    pub panels: Seq<UserSplits>,
}

impl View for PanelSplit {
    type V = PanelSplitModel;

    open spec fn view(&self) -> PanelSplitModel {
        PanelSplitModel { direction: self.direction, panels: self.panels@ }
    }
}

impl PanelSplit {
    pub fn new(direction: Direction, panels: Vec<UserSplits>) -> (s: Self)
        ensures
            s@ == (PanelSplitModel { direction, panels: panels@ }),
    {
        PanelSplit { direction, panels }
    }
}

} // verus!
