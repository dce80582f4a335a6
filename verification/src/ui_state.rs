//! Pure state of the interactive viewer: which tab of a binary's panes is
//! selected, and how a table selection moves. The terminal itself is a
//! consumer of these values; nothing here performs any input or output.

use crate::depmap::DependencyMap;
use crate::resolve_symbols::ProviderMap;
use crate::summarize::ElfSummary;
use vstd::prelude::*;

verus! {

/// The immutable data a viewer session works over: a window title, the
/// root image, its resolved dependencies, and the symbol resolutions —
/// everything fixed once the engine has run. The viewer's mutable
/// selection state lives apart, keyed by image path.
pub struct StaticAppData {
    pub title: String,
    pub elf: ElfSummary,
    pub resolved_dependencies: DependencyMap,
    pub symbol_resolutions: ProviderMap,
}

/// The panes offered for one binary image.
#[derive(Copy, Clone, PartialEq, Eq, Structural, Debug)]
pub enum InfoTabLabels {
    Overview,
    DynamicDependencies,
    DefinedDynamicSymbols,
}

/// The state of the tab bar for a single binary; each binary has its own.
/// The labels are part of the state, as different kinds of binary will
/// come to offer different tabs.
#[derive(Debug)]
pub struct TabState {
    pub tab_labels: Vec<InfoTabLabels>,
    pub selected_tab: usize,
}

impl TabState {
    /// The selected index names one of the labels.
    pub open spec fn wf(self) -> bool {
        self.selected_tab < self.tab_labels@.len()
    }

    pub fn new() -> (t: TabState)
        ensures
            t.wf(),
            t.tab_labels@ == seq![
                InfoTabLabels::Overview,
                InfoTabLabels::DynamicDependencies,
                InfoTabLabels::DefinedDynamicSymbols,
            ],
            t.selected_tab == 0,
    {
        let mut labels: Vec<InfoTabLabels> = Vec::new();
        labels.push(InfoTabLabels::Overview);
        labels.push(InfoTabLabels::DynamicDependencies);
        labels.push(InfoTabLabels::DefinedDynamicSymbols);
        proof {
            assert(labels@ =~= seq![
                InfoTabLabels::Overview,
                InfoTabLabels::DynamicDependencies,
                InfoTabLabels::DefinedDynamicSymbols,
            ]);
        }
        TabState { tab_labels: labels, selected_tab: 0 }
    }

    pub fn selected_label(&self) -> (r: InfoTabLabels)
        requires
            self.wf(),
        ensures
            r == self.tab_labels@[self.selected_tab as int],
    {
        self.tab_labels[self.selected_tab]
    }
}

/// Moves a table selection one row down: an empty table keeps no
/// selection, an unselected table selects the first row, and the last row
/// is a fixed point.
pub fn increment_table_selection(selected: Option<usize>, num_items: usize) -> (r: Option<usize>)
    ensures
        num_items == 0 ==> r == selected,
        num_items > 0 ==> match selected {
            Option::None => r == Option::Some(0usize),
            Option::Some(cur) => r == Option::Some(
                if cur + 1 < num_items {
                    (cur + 1) as usize
                } else {
                    (num_items - 1) as usize
                },
            ),
        },
{
    if num_items == 0 {
        return selected;
    }
    match selected {
        Option::None => Option::Some(0),
        Option::Some(cur) => {
            if cur < num_items - 1 {
                Option::Some(cur + 1)
            } else {
                Option::Some(num_items - 1)
            }
        },
    }
}

/// Moves a table selection one row up: an empty table keeps no selection,
/// an unselected table selects the last row, and the first row is a fixed
/// point.
pub fn decrement_table_selection(selected: Option<usize>, num_items: usize) -> (r: Option<usize>)
    ensures
        num_items == 0 ==> r == selected,
        num_items > 0 ==> match selected {
            Option::None => r == Option::Some((num_items - 1) as usize),
            Option::Some(cur) => r == Option::Some(
                if cur > 0 {
                    (cur - 1) as usize
                } else {
                    0usize
                },
            ),
        },
{
    if num_items == 0 {
        return selected;
    }
    match selected {
        Option::None => Option::Some(num_items - 1),
        Option::Some(cur) => {
            if cur > 0 {
                Option::Some(cur - 1)
            } else {
                Option::Some(0)
            }
        },
    }
}

} // verus!
