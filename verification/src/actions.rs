//! Action mediation: the actions that the entry and the top-level `let` items request or
//! perform by default, which the host must mediate.
use std::collections::BTreeSet;
use vstd::prelude::*;

use crate::ids::ItemId;
use crate::program::{ActionRef, CheckedProject, Effect, EffectRow, EffectSummary, HirItem};

verus! {

broadcast use vstd::std_specs::btree::group_btree_axioms;

/// The actions a list of effects names, directly or as applied actions.
pub open spec fn row_actions(effects: Seq<Effect>) -> Set<ActionRef> {
    Set::new(
        |a: ActionRef|
            exists|i: int|
                0 <= i < effects.len() && match #[trigger] effects[i] {
                    Effect::Action(b) => b == a,
                    Effect::AppliedAction { action } => action == a,
                    Effect::Other => false,
                },
    )
}

/// The actions whose numbers are in `keys`.
pub open spec fn actions_of(keys: Set<u32>) -> Set<ActionRef> {
    Set::new(|a: ActionRef| keys.contains(a.0))
}

/// Adds the actions of a row to a set of action numbers.
fn add_row(v: &mut BTreeSet<u32>, row: &EffectRow)
    ensures
        actions_of(final(v)@) == actions_of(old(v)@).union(row_actions(row.effects@)),
{
    let ghost start = actions_of(v@);
    let n = row.effects.len();
    for i in 0..n
        invariant
            n == row.effects@.len(),
            actions_of(v@) == start.union(row_actions(row.effects@.take(i as int))),
    {
        let ghost before = v@;
        proof {
            crate::keys::lemma_u32_keys_ordered();
        }
        match &row.effects[i] {
            Effect::Action(a) => {
                v.insert(a.0);
            },
            Effect::AppliedAction { action } => {
                v.insert(action.0);
            },
            Effect::Other => {},
        }
        proof {
            let t1 = row.effects@.take(i as int);
            let t2 = row.effects@.take(i + 1);
            assert forall|a: ActionRef| row_actions(t2).contains(a) <==> (row_actions(t1).contains(a) || match row.effects@[i as int] {
                Effect::Action(b) => b == a,
                Effect::AppliedAction { action } => action == a,
                Effect::Other => false,
            }) by {
                if row_actions(t2).contains(a) {
                    let k = choose|k: int|
                        0 <= k < t2.len() && match #[trigger] t2[k] {
                            Effect::Action(b) => b == a,
                            Effect::AppliedAction { action } => action == a,
                            Effect::Other => false,
                        };
                    if k < i {
                        assert(t1[k] == t2[k]);
                    }
                }
                if row_actions(t1).contains(a) {
                    let k = choose|k: int|
                        0 <= k < t1.len() && match #[trigger] t1[k] {
                            Effect::Action(b) => b == a,
                            Effect::AppliedAction { action } => action == a,
                            Effect::Other => false,
                        };
                    assert(t2[k] == t1[k]);
                }
                assert(t2[i as int] == row.effects@[i as int]);
            }
            assert forall|a: ActionRef| #[trigger] actions_of(v@).contains(a) <==> (actions_of(before).contains(a)
                || match row.effects@[i as int] {
                Effect::Action(b) => b == a,
                Effect::AppliedAction { action } => action == a,
                Effect::Other => false,
            }) by {
                match row.effects@[i as int] {
                    Effect::Action(b) => {
                        assert(v@ == before.insert(b.0));
                    },
                    Effect::AppliedAction { action } => {
                        assert(v@ == before.insert(action.0));
                    },
                    Effect::Other => {},
                }
            }
            assert(actions_of(v@) =~= start.union(row_actions(t2)));
        }
    }
    proof {
        assert(row.effects@.take(n as int) =~= row.effects@);
    }
}

/// The actions the host must mediate for the entry.
pub struct ActionMediationTable {
    requested_actions: BTreeSet<u32>,
    default_actions: BTreeSet<u32>,
}

/// The effect summary of item `i`, if the checker recorded one.
pub open spec fn summary_of(p: CheckedProject, i: int) -> Option<EffectSummary> {
    if 0 <= i < p.effects.item_effects@.len() {
        p.effects.item_effects@[i]
    } else {
        None
    }
}

/// Item `i` is a top-level `let` with an effect summary.
pub open spec fn let_summary(p: CheckedProject, i: int) -> bool {
    0 <= i < p.hir.items@.len() && p.hir.items@[i] is TopLevelLet && summary_of(p, i) is Some
}

/// The actions requested by the entry's summary and by the summaries of the top-level
/// `let` items.
pub open spec fn mediated_requested(p: CheckedProject, entry: ItemId) -> Set<ActionRef> {
    Set::new(
        |a: ActionRef|
            row_actions(summary_of(p, entry.0 as int)->0.requested_actions.effects@).contains(a)
                || exists|i: int|
                #[trigger] let_summary(p, i) && row_actions(summary_of(p, i)->0.requested_actions.effects@).contains(
                    a,
                ),
    )
}

/// The actions performed by default by the entry and the top-level `let` items.
pub open spec fn mediated_defaults(p: CheckedProject, entry: ItemId) -> Set<ActionRef> {
    Set::new(
        |a: ActionRef|
            row_actions(summary_of(p, entry.0 as int)->0.default_actions.effects@).contains(a)
                || exists|i: int|
                #[trigger] let_summary(p, i) && row_actions(summary_of(p, i)->0.default_actions.effects@).contains(
                    a,
                ),
    )
}

impl ActionMediationTable {
    /// The requested actions.
    pub closed spec fn requested(&self) -> Set<ActionRef> {
        actions_of(self.requested_actions@)
    }

    /// The actions performed by default.
    pub closed spec fn defaults(&self) -> Set<ActionRef> {
        actions_of(self.default_actions@)
    }

    /// A table without actions.
    pub fn new() -> (t: Self)
        ensures
            t.requested() == Set::<ActionRef>::empty(),
            t.defaults() == Set::<ActionRef>::empty(),
    {
        let t = ActionMediationTable { requested_actions: BTreeSet::new(), default_actions: BTreeSet::new() };
        proof {
            assert(t.requested() =~= Set::<ActionRef>::empty());
            assert(t.defaults() =~= Set::<ActionRef>::empty());
        }
        t
    }

    /// The host must mediate `action`: it is requested or performed by default.
    pub fn requires_action(&self, action: &ActionRef) -> (r: bool)
        ensures
            r == (self.requested().contains(*action) || self.defaults().contains(*action)),
    {
        proof {
            crate::keys::lemma_u32_keys_ordered();
        }
        self.requested_actions.contains(&action.0) || self.default_actions.contains(&action.0)
    }

    /// `action` is performed by default.
    pub fn has_default_action(&self, action: &ActionRef) -> (r: bool)
        ensures
            r == self.defaults().contains(*action),
    {
        proof {
            crate::keys::lemma_u32_keys_ordered();
        }
        self.default_actions.contains(&action.0)
    }

    /// Adds the actions of an effect summary.
    pub fn include_summary(&mut self, summary: &EffectSummary)
        ensures
            final(self).requested() == old(self).requested().union(
                row_actions(summary.requested_actions.effects@),
            ),
            final(self).defaults() == old(self).defaults().union(
                row_actions(summary.default_actions.effects@),
            ),
    {
        add_row(&mut self.requested_actions, &summary.requested_actions);
        add_row(&mut self.default_actions, &summary.default_actions);
    }

    /// The table for `entry`: the actions of its effect summary and of the summaries of
    /// the top-level `let` items.
    pub fn for_entry(project: &CheckedProject, entry: ItemId) -> (r: Result<Self, String>)
        ensures
            match r {
                Ok(t) => summary_of(*project, entry.0 as int) is Some && t.requested()
                    == mediated_requested(*project, entry) && t.defaults() == mediated_defaults(
                    *project,
                    entry,
                ),
                Err(m) => summary_of(*project, entry.0 as int) is None && m@
                    == "checked project is missing effect summary for action mediation"@,
            },
    {
        let ghost p = *project;
        let k = entry.0 as usize;
        let summary = if k < project.effects.item_effects.len() {
            match &project.effects.item_effects[k] {
                Some(s) => s,
                None => {
                    return Err("checked project is missing effect summary for action mediation".to_owned());
                },
            }
        } else {
            return Err("checked project is missing effect summary for action mediation".to_owned());
        };
        let mut table = ActionMediationTable::new();
        table.include_summary(summary);
        let ghost base_r = row_actions(summary.requested_actions.effects@);
        let ghost base_d = row_actions(summary.default_actions.effects@);
        let n = project.hir.items.len();
        for i in 0..n
            invariant
                p == *project,
                n == p.hir.items@.len(),
                summary_of(p, entry.0 as int) == Some(*summary),
                base_r == row_actions(summary.requested_actions.effects@),
                base_d == row_actions(summary.default_actions.effects@),
                table.requested() == Set::new(
                    |a: ActionRef|
                        base_r.contains(a) || exists|j: int|
                            0 <= j < i && #[trigger] let_summary(p, j) && row_actions(
                                summary_of(p, j)->0.requested_actions.effects@,
                            ).contains(a),
                ),
                table.defaults() == Set::new(
                    |a: ActionRef|
                        base_d.contains(a) || exists|j: int|
                            0 <= j < i && #[trigger] let_summary(p, j) && row_actions(
                                summary_of(p, j)->0.default_actions.effects@,
                            ).contains(a),
                ),
        {
            let ghost r0 = table.requested();
            let ghost d0 = table.defaults();
            let is_let = match &project.hir.items[i] {
                HirItem::TopLevelLet => true,
                _ => false,
            };
            if is_let && i < project.effects.item_effects.len() {
                match &project.effects.item_effects[i] {
                    Some(s) => {
                        table.include_summary(s);
                        proof {
                            assert(let_summary(p, i as int));
                            assert(summary_of(p, i as int) == Some(*s));
                        }
                    },
                    None => {},
                }
            }
            proof {
                let next_r = Set::new(
                    |a: ActionRef|
                        base_r.contains(a) || exists|j: int|
                            0 <= j < i + 1 && #[trigger] let_summary(p, j) && row_actions(
                                summary_of(p, j)->0.requested_actions.effects@,
                            ).contains(a),
                );
                let next_d = Set::new(
                    |a: ActionRef|
                        base_d.contains(a) || exists|j: int|
                            0 <= j < i + 1 && #[trigger] let_summary(p, j) && row_actions(
                                summary_of(p, j)->0.default_actions.effects@,
                            ).contains(a),
                );
                assert(table.requested() =~= next_r);
                assert(table.defaults() =~= next_d);
            }
        }
        proof {
            assert(table.requested() =~= mediated_requested(p, entry));
            assert(table.defaults() =~= mediated_defaults(p, entry));
        }
        Ok(table)
    }
}

} // verus!
