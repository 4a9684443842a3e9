//! The interpreter plan: the passes that turn checked program facts into the tables the
//! interpreter runs on, and the diagnostics that stop a plan from being made.
use vstd::prelude::*;

use crate::actions::{mediated_defaults, mediated_requested, summary_of, ActionMediationTable};
use crate::dispatch::{
    dispatch_errors, lemma_dispatch_errors, IntrinsicDispatchTable, StdIntrinsicHandlerRegistry,
};
use crate::ids::{ItemId, SymbolId};
use crate::program::{
    CheckedProject, InterpreterSupport, SymbolData, SymbolDef, TopLevelLetClassification,
};
use crate::slots::{slot_symbols, SlotLayoutTable};

verus! {

/// The item the interpreter starts from.
#[derive(Clone, Copy, Debug, PartialEq, Eq, Structural)]
pub struct EntryPoint {
    pub item: ItemId,
}

/// A top-level constant.
#[derive(Clone, Copy, Debug, PartialEq, Eq, Structural)]
pub struct GlobalConst {
    pub symbol: SymbolId,
}

/// The top-level constants, in symbol order.
pub struct GlobalTable {
    pub constants: Vec<GlobalConst>,
}

/// A top-level resource handle.
#[derive(Clone, Copy, Debug, PartialEq, Eq, Structural)]
pub struct ResourceHandleDescriptor {
    pub symbol: SymbolId,
}

/// The top-level resource handles, in symbol order.
pub struct ResourceTable {
    pub handles: Vec<ResourceHandleDescriptor>,
}

/// What the host must support to run the entry.
pub struct HostRequirementTable {
    pub entry: Option<InterpreterSupport>,
}

/// What a diagnostic is about.
#[derive(Clone, Copy, Debug, PartialEq, Eq, Structural)]
pub enum DiagnosticKind {
    MissingCheckedFact,
    MissingEntry,
}

/// A planning error.
pub struct Diagnostic {
    pub kind: DiagnosticKind,
    pub message: String,
}

/// Everything the interpreter needs to run the entry.
pub struct InterpreterPlan {
    pub entry: EntryPoint,
    pub slots: SlotLayoutTable,
    pub globals: GlobalTable,
    pub resources: ResourceTable,
    pub dispatch: IntrinsicDispatchTable,
    pub host_requirements: HostRequirementTable,
    pub action_mediation: ActionMediationTable,
    pub diagnostics: Vec<Diagnostic>,
}

/// A plan, if planning succeeded, and the diagnostics planning reported.
pub struct PlanResult {
    pub plan: Option<InterpreterPlan>,
    pub diagnostics: Vec<Diagnostic>,
}

/// The symbols of the top-level constants, in symbol order.
pub open spec fn const_symbols(symbols: Seq<SymbolData>) -> Seq<SymbolId>
    decreases symbols.len(),
{
    if symbols.len() == 0 {
        Seq::empty()
    } else {
        let rest = const_symbols(symbols.drop_last());
        match symbols.last().def {
            SymbolDef::TopLevelLet { classification: TopLevelLetClassification::Const, .. } => rest.push(
                symbols.last().id,
            ),
            _ => rest,
        }
    }
}

/// The symbols of the top-level resource handles, in symbol order.
pub open spec fn resource_symbols(symbols: Seq<SymbolData>) -> Seq<SymbolId>
    decreases symbols.len(),
{
    if symbols.len() == 0 {
        Seq::empty()
    } else {
        let rest = resource_symbols(symbols.drop_last());
        match symbols.last().def {
            SymbolDef::TopLevelLet {
                classification: TopLevelLetClassification::ResourceHandle(_),
                ..
            } => rest.push(symbols.last().id),
            _ => rest,
        }
    }
}

impl GlobalTable {
    /// The symbols of the constants.
    pub open spec fn symbols(&self) -> Seq<SymbolId> {
        self.constants@.map_values(|c: GlobalConst| c.symbol)
    }

    /// The top-level constants of a program.
    pub fn for_project(project: &CheckedProject) -> (t: Self)
        ensures
            t.symbols() == const_symbols(project.symbols@),
    {
        let n = project.symbols.len();
        let mut constants: Vec<GlobalConst> = Vec::new();
        for i in 0..n
            invariant
                n == project.symbols@.len(),
                constants@.map_values(|c: GlobalConst| c.symbol) == const_symbols(
                    project.symbols@.take(i as int),
                ),
        {
            let symbol = project.symbols.at(i);
            let ghost before = constants@;
            proof {
                assert(project.symbols@.take(i + 1).drop_last() =~= project.symbols@.take(i as int));
                assert(project.symbols@.take(i + 1).last() == *symbol);
            }
            match &symbol.def {
                SymbolDef::TopLevelLet { classification: TopLevelLetClassification::Const, .. } => {
                    constants.push(GlobalConst { symbol: symbol.id });
                    proof {
                        assert(constants@.map_values(|c: GlobalConst| c.symbol) =~= before.map_values(
                            |c: GlobalConst| c.symbol,
                        ).push(symbol.id));
                    }
                },
                _ => {},
            }
        }
        proof {
            assert(project.symbols@.take(n as int) =~= project.symbols@);
        }
        GlobalTable { constants }
    }
}

impl ResourceTable {
    /// The symbols of the handles.
    pub open spec fn symbols(&self) -> Seq<SymbolId> {
        self.handles@.map_values(|h: ResourceHandleDescriptor| h.symbol)
    }

    /// The top-level resource handles of a program.
    pub fn for_project(project: &CheckedProject) -> (t: Self)
        ensures
            t.symbols() == resource_symbols(project.symbols@),
    {
        let n = project.symbols.len();
        let mut handles: Vec<ResourceHandleDescriptor> = Vec::new();
        for i in 0..n
            invariant
                n == project.symbols@.len(),
                handles@.map_values(|h: ResourceHandleDescriptor| h.symbol) == resource_symbols(
                    project.symbols@.take(i as int),
                ),
        {
            let symbol = project.symbols.at(i);
            let ghost before = handles@;
            proof {
                assert(project.symbols@.take(i + 1).drop_last() =~= project.symbols@.take(i as int));
                assert(project.symbols@.take(i + 1).last() == *symbol);
            }
            match &symbol.def {
                SymbolDef::TopLevelLet {
                    classification: TopLevelLetClassification::ResourceHandle(_),
                    ..
                } => {
                    handles.push(ResourceHandleDescriptor { symbol: symbol.id });
                    proof {
                        assert(handles@.map_values(|h: ResourceHandleDescriptor| h.symbol) =~= before.map_values(
                            |h: ResourceHandleDescriptor| h.symbol,
                        ).push(symbol.id));
                    }
                },
                _ => {},
            }
        }
        proof {
            assert(project.symbols@.take(n as int) =~= project.symbols@);
        }
        ResourceTable { handles }
    }
}

/// The requirements of an interpreter-support fact.
pub open spec fn support_view(s: InterpreterSupport) -> Seq<Seq<char>> {
    s.requirements@.map_values(|r: String| r@)
}

/// The support fact recorded for `entry` among the item facts: the first one.
pub open spec fn item_support(items: Seq<(ItemId, InterpreterSupport)>, entry: ItemId) -> Option<InterpreterSupport>
    decreases items.len(),
{
    if items.len() == 0 {
        None
    } else if items[0].0 == entry {
        Some(items[0].1)
    } else {
        item_support(items.drop_first(), entry)
    }
}

/// The support facts for `entry`: those of the entry, else those recorded for its item.
pub open spec fn support_for(p: CheckedProject, entry: ItemId) -> Option<Seq<Seq<char>>> {
    match p.interpreter_support.entry {
        Some(s) => Some(support_view(s)),
        None => match item_support(p.interpreter_support.items@, entry) {
            Some(s) => Some(support_view(s)),
            None => None,
        },
    }
}

/// A copy of a support fact.
fn copy_support(s: &InterpreterSupport) -> (r: InterpreterSupport)
    ensures
        support_view(r) == support_view(*s),
{
    let mut requirements: Vec<String> = Vec::new();
    for i in 0..s.requirements.len()
        invariant
            requirements@.len() == i,
            i <= s.requirements@.len(),
            forall|k: int| 0 <= k < i ==> requirements@[k]@ == s.requirements@[k]@,
    {
        requirements.push(s.requirements[i].clone());
    }
    let r = InterpreterSupport { requirements };
    proof {
        assert(support_view(r) =~= support_view(*s));
    }
    r
}

/// The support facts for `entry`.
fn entry_support(project: &CheckedProject, entry: ItemId) -> (r: Option<InterpreterSupport>)
    ensures
        match support_for(*project, entry) {
            Some(v) => r matches Some(s) && support_view(s) == v,
            None => r is None,
        },
{
    match &project.interpreter_support.entry {
        Some(s) => {
            return Some(copy_support(s));
        },
        None => {},
    }
    let items = &project.interpreter_support.items;
    let n = items.len();
    proof {
        assert(items@.skip(0) =~= items@);
    }
    for i in 0..n
        invariant
            n == items@.len(),
            project.interpreter_support.entry is None,
            *items == project.interpreter_support.items,
            item_support(items@, entry) == item_support(items@.skip(i as int), entry),
    {
        proof {
            assert(items@.skip(i as int).drop_first() =~= items@.skip(i + 1));
            assert(items@.skip(i as int)[0] == items@[i as int]);
        }
        if items[i].0.0 == entry.0 {
            return Some(copy_support(&items[i].1));
        }
    }
    proof {
        assert(items@.skip(n as int).len() == 0);
    }
    None
}


/// A diagnostic as a kind and a message.
pub open spec fn diag_views(v: Seq<Diagnostic>) -> Seq<(DiagnosticKind, Seq<char>)> {
    v.map_values(|d: Diagnostic| (d.kind, d.message@))
}

/// A missing-fact diagnostic with message `m`.
pub open spec fn fact(m: Seq<char>) -> (DiagnosticKind, Seq<char>) {
    (DiagnosticKind::MissingCheckedFact, m)
}

/// One diagnostic for `m` when `present` is false.
pub open spec fn unless(present: bool, m: Seq<char>) -> Seq<(DiagnosticKind, Seq<char>)> {
    if present {
        Seq::empty()
    } else {
        seq![fact(m)]
    }
}

/// The diagnostics that planning reports, pass by pass: the validation of interpreter
/// support facts, the entry, the dispatch table, the entry's host requirements, its
/// action mediation, and then one for each plan table that could not be built.
pub open spec fn plan_diagnostics(p: CheckedProject, handlers: Seq<crate::dispatch::StdIntrinsicIdentity>) -> Seq<(DiagnosticKind, Seq<char>)> {
    let validate = if p.interpreter_support.items@.len() == 0 && p.interpreter_support.entry is None {
        seq![fact("checked project does not contain interpreter-support facts"@)]
    } else {
        Seq::empty()
    };
    let entry = if p.entry is None {
        seq![(DiagnosticKind::MissingEntry, "checked project does not contain a resolved entry item"@)]
    } else {
        Seq::empty()
    };
    let dispatch = dispatch_errors(p, handlers).map_values(|m: Seq<char>| fact(m));
    let host = match p.entry {
        Some(e) => if support_for(p, e) is None {
            seq![fact("checked project is missing interpreter-support facts for the selected entry"@)]
        } else {
            Seq::empty()
        },
        None => Seq::empty(),
    };
    let actions = match p.entry {
        Some(e) => if summary_of(p, e.0 as int) is None {
            seq![fact("checked project is missing effect summary for action mediation"@)]
        } else {
            Seq::empty()
        },
        None => Seq::empty(),
    };
    let has_entry = p.entry is Some;
    let has_actions = match p.entry {
        Some(e) => summary_of(p, e.0 as int) is Some,
        None => false,
    };
    validate + entry + dispatch + host + actions + unless(has_entry, "interpreter plan is missing entry facts"@)
        + unless(true, "interpreter plan is missing slot layout facts"@) + unless(
        true,
        "interpreter plan is missing global table facts"@,
    ) + unless(true, "interpreter plan is missing resource table facts"@) + unless(
        dispatch_errors(p, handlers).len() == 0,
        "interpreter plan is missing intrinsic dispatch facts"@,
    ) + unless(has_entry, "interpreter plan is missing host requirement facts"@) + unless(
        has_actions,
        "interpreter plan is missing action mediation facts"@,
    )
}

/// Adds a missing-fact diagnostic.
fn push_fact(diagnostics: &mut Vec<Diagnostic>, message: String)
    ensures
        diag_views(final(diagnostics)@) == diag_views(old(diagnostics)@).push(fact(message@)),
{
    let ghost before = diagnostics@;
    diagnostics.push(Diagnostic { kind: DiagnosticKind::MissingCheckedFact, message });
    proof {
        assert(diag_views(diagnostics@) =~= diag_views(before).push(fact(message@)));
    }
}

/// Adds a missing-fact diagnostic for each message, in order.
fn push_facts(diagnostics: &mut Vec<Diagnostic>, messages: &Vec<String>)
    ensures
        diag_views(final(diagnostics)@) == diag_views(old(diagnostics)@) + crate::dispatch::texts(
            messages@,
        ).map_values(|m: Seq<char>| fact(m)),
{
    let ghost start = diag_views(diagnostics@);
    let n = messages.len();
    for i in 0..n
        invariant
            n == messages@.len(),
            diag_views(diagnostics@) == start + crate::dispatch::texts(messages@.take(i as int)).map_values(
                |m: Seq<char>| fact(m),
            ),
    {
        let ghost before = diag_views(diagnostics@);
        push_fact(diagnostics, messages[i].clone());
        proof {
            assert(crate::dispatch::texts(messages@.take(i + 1)).map_values(|m: Seq<char>| fact(m))
                =~= crate::dispatch::texts(messages@.take(i as int)).map_values(|m: Seq<char>| fact(m)).push(
                fact(messages@[i as int]@),
            ));
            assert(diag_views(diagnostics@) =~= start + crate::dispatch::texts(messages@.take(i + 1)).map_values(
                |m: Seq<char>| fact(m),
            ));
        }
    }
    proof {
        assert(messages@.take(n as int) =~= messages@);
    }
}


/// What the planning passes have produced so far.
struct PlanContext {
    diagnostics: Vec<Diagnostic>,
    entry: Option<EntryPoint>,
    slots: Option<SlotLayoutTable>,
    globals: Option<GlobalTable>,
    resources: Option<ResourceTable>,
    dispatch: Option<IntrinsicDispatchTable>,
    host_requirements: Option<HostRequirementTable>,
    action_mediation: Option<ActionMediationTable>,
}

/// Reports the table named in `m` if it is not `present`.
fn require(diagnostics: &mut Vec<Diagnostic>, present: bool, m: &str)
    ensures
        diag_views(final(diagnostics)@) == diag_views(old(diagnostics)@) + unless(present, m@),
{
    if !present {
        push_fact(diagnostics, m.to_owned());
        proof {
            assert(diag_views(old(diagnostics)@).push(fact(m@)) =~= diag_views(old(diagnostics)@) + seq![fact(m@)]);
        }
    } else {
        proof {
            assert(diag_views(diagnostics@) =~= diag_views(diagnostics@) + Seq::<(DiagnosticKind, Seq<char>)>::empty());
        }
    }
}

/// Reports each plan table that no pass produced.
fn require_plan_artifacts(context: &mut PlanContext)
    ensures
        diag_views(final(context).diagnostics@) == diag_views(old(context).diagnostics@) + unless(
            old(context).entry is Some,
            "interpreter plan is missing entry facts"@,
        ) + unless(old(context).slots is Some, "interpreter plan is missing slot layout facts"@)
            + unless(old(context).globals is Some, "interpreter plan is missing global table facts"@)
            + unless(old(context).resources is Some, "interpreter plan is missing resource table facts"@)
            + unless(old(context).dispatch is Some, "interpreter plan is missing intrinsic dispatch facts"@)
            + unless(
            old(context).host_requirements is Some,
            "interpreter plan is missing host requirement facts"@,
        ) + unless(
            old(context).action_mediation is Some,
            "interpreter plan is missing action mediation facts"@,
        ),
        final(context).entry == old(context).entry,
        final(context).slots == old(context).slots,
        final(context).globals == old(context).globals,
        final(context).resources == old(context).resources,
        final(context).dispatch == old(context).dispatch,
        final(context).host_requirements == old(context).host_requirements,
        final(context).action_mediation == old(context).action_mediation,
{
    let e = context.entry.is_some();
    require(&mut context.diagnostics, e, "interpreter plan is missing entry facts");
    let e = context.slots.is_some();
    require(&mut context.diagnostics, e, "interpreter plan is missing slot layout facts");
    let e = context.globals.is_some();
    require(&mut context.diagnostics, e, "interpreter plan is missing global table facts");
    let e = context.resources.is_some();
    require(&mut context.diagnostics, e, "interpreter plan is missing resource table facts");
    let e = context.dispatch.is_some();
    require(&mut context.diagnostics, e, "interpreter plan is missing intrinsic dispatch facts");
    let e = context.host_requirements.is_some();
    require(&mut context.diagnostics, e, "interpreter plan is missing host requirement facts");
    let e = context.action_mediation.is_some();
    require(&mut context.diagnostics, e, "interpreter plan is missing action mediation facts");
}

/// Plans the entry of a checked program: runs the planning passes in order and makes a
/// plan when none of them reported a diagnostic.
#[verifier::rlimit(50)]
pub fn build_plan(project: &CheckedProject, handlers: StdIntrinsicHandlerRegistry) -> (r: PlanResult)
    ensures
        diag_views(r.diagnostics@) == plan_diagnostics(*project, handlers.handlers@),
        r.plan is Some <==> plan_diagnostics(*project, handlers.handlers@).len() == 0,
        r.plan matches Some(pl) ==> {
            &&& project.entry == Some(pl.entry.item)
            &&& pl.slots@ == slot_symbols(project.symbols@)
            &&& pl.globals.symbols() == const_symbols(project.symbols@)
            &&& pl.resources.symbols() == resource_symbols(project.symbols@)
            &&& pl.dispatch.describes(*project, handlers.handlers@)
            &&& (pl.host_requirements.entry matches Some(s) && support_for(*project, pl.entry.item)
                == Some(support_view(s)))
            &&& pl.action_mediation.requested() == mediated_requested(*project, pl.entry.item)
            &&& pl.action_mediation.defaults() == mediated_defaults(*project, pl.entry.item)
            &&& pl.diagnostics@.len() == 0
        },
{
    let ghost p = *project;
    let ghost hs = handlers.handlers@;
    let mut diagnostics: Vec<Diagnostic> = Vec::new();
    // validate the interpreter-support facts
    if project.interpreter_support.items.len() == 0 && project.interpreter_support.entry.is_none() {
        push_fact(&mut diagnostics, "checked project does not contain interpreter-support facts".to_owned());
    }
    // the entry
    let entry = match project.entry {
        Some(item) => Some(EntryPoint { item }),
        None => {
            let ghost before = diagnostics@;
            diagnostics.push(
                Diagnostic {
                    kind: DiagnosticKind::MissingEntry,
                    message: "checked project does not contain a resolved entry item".to_owned(),
                },
            );
            proof {
                assert(diag_views(diagnostics@) =~= diag_views(before).push(
                    (DiagnosticKind::MissingEntry, "checked project does not contain a resolved entry item"@),
                ));
            }
            None
        },
    };
    let ghost after_entry = diag_views(diagnostics@);
    let slots = SlotLayoutTable::for_project(project);
    let globals = GlobalTable::for_project(project);
    let resources = ResourceTable::for_project(project);
    let dispatch = match IntrinsicDispatchTable::for_project(project, handlers) {
        Ok(table) => {
            proof {
                assert(dispatch_errors(p, hs) =~= Seq::<Seq<char>>::empty());
            }
            Some(table)
        },
        Err(errors) => {
            proof {
                lemma_dispatch_errors(p, hs, crate::dispatch::texts(errors@));
            }
            push_facts(&mut diagnostics, &errors);
            None
        },
    };
    proof {
        assert(diag_views(diagnostics@) =~= after_entry + dispatch_errors(p, hs).map_values(|m: Seq<char>| fact(m)));
    }
    // host requirements of the entry
    let host_requirements = match entry {
        Some(e) => {
            let support = entry_support(project, e.item);
            if support.is_none() {
                push_fact(
                    &mut diagnostics,
                    "checked project is missing interpreter-support facts for the selected entry".to_owned(),
                );
            }
            Some(HostRequirementTable { entry: support })
        },
        None => None,
    };
    // action mediation of the entry
    let action_mediation = match entry {
        Some(e) => match ActionMediationTable::for_entry(project, e.item) {
            Ok(table) => Some(table),
            Err(m) => {
                push_fact(&mut diagnostics, m);
                None
            },
        },
        None => None,
    };
    let mut context = PlanContext {
        diagnostics,
        entry,
        slots: Some(slots),
        globals: Some(globals),
        resources: Some(resources),
        dispatch,
        host_requirements,
        action_mediation,
    };
    require_plan_artifacts(&mut context);
    proof {
        assert(diag_views(context.diagnostics@) =~= plan_diagnostics(p, hs));
    }
    let PlanContext {
        diagnostics,
        entry,
        slots,
        globals,
        resources,
        dispatch,
        host_requirements,
        action_mediation,
    } = context;
    let plan = if diagnostics.len() == 0 {
        match (entry, slots, globals, resources, dispatch, host_requirements, action_mediation) {
            (
                Some(entry),
                Some(slots),
                Some(globals),
                Some(resources),
                Some(dispatch),
                Some(host_requirements),
                Some(action_mediation),
            ) => Some(
                InterpreterPlan {
                    entry,
                    slots,
                    globals,
                    resources,
                    dispatch,
                    host_requirements,
                    action_mediation,
                    diagnostics: Vec::new(),
                },
            ),
            _ => None,
        }
    } else {
        None
    };
    PlanResult { plan, diagnostics }
}

} // verus!
