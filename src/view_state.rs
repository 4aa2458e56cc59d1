//! Focus and display modes of the interactive view.

use vstd::prelude::*;

verus! {

/// The panel that has the focus.
#[derive(Clone, Copy, Debug, PartialEq, Eq, Structural)]
pub enum Panel {
    TopicTree,
    Messages,
    Stats,
}

/// What keys are read as.
#[derive(Clone, Copy, Debug, PartialEq, Eq, Structural)]
pub enum InputMode {
    Normal,
    Search,
    MetricSelect,
    Filter,
}

/// Which topics the tree shows.
#[derive(Clone, Copy, Debug, PartialEq, Eq, Structural)]
pub enum FilterMode {
    All,
    Starred,
}

/// How a payload is shown.
#[derive(Clone, Copy, Debug, PartialEq, Eq, Structural)]
pub enum PayloadMode {
    Auto,
    Raw,
    Hex,
    Json,
}

impl Panel {
    pub open spec fn next_spec(self) -> Panel {
        match self {
            Panel::TopicTree => Panel::Messages,
            Panel::Messages => Panel::Stats,
            Panel::Stats => Panel::TopicTree,
        }
    }

    /// The next panel, cycling tree, messages, stats.
    pub fn next(self) -> (r: Panel)
        ensures
            r == self.next_spec(),
    {
        match self {
            Panel::TopicTree => Panel::Messages,
            Panel::Messages => Panel::Stats,
            Panel::Stats => Panel::TopicTree,
        }
    }

    /// The previous panel.
    pub fn prev(self) -> (r: Panel)
        ensures
            r.next_spec() == self,
    {
        match self {
            Panel::TopicTree => Panel::Stats,
            Panel::Messages => Panel::TopicTree,
            Panel::Stats => Panel::Messages,
        }
    }
}

impl FilterMode {
    /// The other filter.
    pub fn toggled(self) -> (r: FilterMode)
        ensures
            r != self,
    {
        match self {
            FilterMode::All => FilterMode::Starred,
            FilterMode::Starred => FilterMode::All,
        }
    }
}

impl PayloadMode {
    /// The next mode, cycling auto, raw, hex, JSON.
    pub fn next(self) -> (r: PayloadMode)
        ensures
            r == match self {
                PayloadMode::Auto => PayloadMode::Raw,
                PayloadMode::Raw => PayloadMode::Hex,
                PayloadMode::Hex => PayloadMode::Json,
                PayloadMode::Json => PayloadMode::Auto,
            },
    {
        match self {
            PayloadMode::Auto => PayloadMode::Raw,
            PayloadMode::Raw => PayloadMode::Hex,
            PayloadMode::Hex => PayloadMode::Json,
            PayloadMode::Json => PayloadMode::Auto,
        }
    }
}

} // verus!
