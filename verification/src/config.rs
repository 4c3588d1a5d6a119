//! The top layer of the last run.
//!
//! A changed top layer leads to long build times, so the one of the last run is
//! kept until the user asks for a new one.

use crate::names::NameSet;
use crate::text::Text;
use vstd::prelude::*;

verus! {

/// What is kept from one run to the next.
#[derive(Debug)]
pub struct Plankconfig {
    pub top_layer: NameSet,
}

/// What the top layer of a run is, and what follows from it.
pub struct Settled {
    /// the names in the top layer
    pub top_layer: NameSet,
    /// whether the last run's top layer was kept though another was planned
    pub outdated: bool,
    /// what to keep for the next run, where that is something new
    pub keep: Option<Plankconfig>,
}

/// Whether a run goes by the configuration of the last one.
pub fn uses_last_run(found: bool, overwrite_top_layer: bool) -> (uses: bool)
    ensures
        uses == (found && !overwrite_top_layer),
{
    found && !overwrite_top_layer
}

/// The top layer of a run: the one kept from the last run, where there is one to
/// go by, and else the one that was planned.
pub open spec fn top_layer_of_run(kept: Option<Set<Text>>, planned: Set<Text>) -> Set<Text> {
    match kept {
        Some(names) => names,
        None => planned,
    }
}

/// The names that a configuration keeps.
pub open spec fn kept_names(config: Option<Plankconfig>) -> Option<Set<Text>> {
    match config {
        Some(config) => Some(config.top_layer@),
        None => None,
    }
}

/// Settles the top layer: that of the last run where there is one to go by, and
/// else the one that was planned, which the next run is to go by.
pub fn settle(last: Option<Plankconfig>, planned: NameSet) -> (settled: Settled)
    ensures
        settled.top_layer@ == top_layer_of_run(kept_names(last), planned@),
        settled.outdated == (settled.top_layer@ != planned@),
        last is Some ==> settled.keep is None,
        last is None ==> kept_names(settled.keep) == Some(settled.top_layer@),
        last matches Some(config) ==> settled.top_layer@ == config.top_layer@,
        last is None ==> settled.top_layer@ == planned@,
        last is None ==> (settled.keep matches Some(config) && config.top_layer@ == planned@),
{
    match last {
        Some(config) => {
            let outdated = !config.top_layer.same(&planned);
            Settled { top_layer: config.top_layer, outdated, keep: None }
        },
        None => {
            let keep = Plankconfig { top_layer: planned.copied() };
            Settled { top_layer: planned, outdated: false, keep: Some(keep) }
        },
    }
}

/// Law: a run that goes by what an earlier one kept has the same top layer,
/// whatever it plans, and one that does not has the top layer that it plans.
pub proof fn law_top_layer_is_kept(
    kept: Option<Set<Text>>,
    planned: Set<Text>,
    planned_later: Set<Text>,
)
    ensures
        top_layer_of_run(Some(top_layer_of_run(kept, planned)), planned_later) == top_layer_of_run(
            kept,
            planned,
        ),
        top_layer_of_run(None, planned_later) == planned_later,
{
}

} // verus!
