use etas_interpreter::dispatch::StdIntrinsicHandlerRegistry;
use etas_interpreter::ids::{ItemId, SymbolId};
use etas_interpreter::plan::{build_plan, DiagnosticKind, GlobalTable, ResourceTable};
use etas_interpreter::program::{
    ActionRef, CheckedProject, Effect, EffectFacts, EffectRow, EffectSummary, FlowDecl, HirItem,
    HirProgram, InterpreterSupport, Reachability, StdRegistry, SupportFacts, SymbolDef,
    SymbolKind, SymbolTable, TopLevelLetClassification, TypeFacts,
};
use etas_interpreter::actions::ActionMediationTable;
use etas_interpreter::scope_tree::{ScopeOwner, ScopeTree};

fn empty_project() -> CheckedProject {
    CheckedProject {
        entry: None,
        hir: HirProgram {
            items: vec![],
            exprs: vec![],
            pats: vec![],
            scopes: ScopeTree::new(),
            handler_arms: vec![],
            expr_scopes: vec![],
            item_exprs: vec![],
        },
        symbols: SymbolTable::new(),
        types: TypeFacts {
            expr_types: vec![],
            pattern_types: vec![],
            field_projections: vec![],
            symbol_types: vec![],
        },
        type_store: vec![],
        std_registry: StdRegistry { symbols: vec![] },
        reachability: Reachability { reachable_items: vec![] },
        effects: EffectFacts { item_effects: vec![] },
        interpreter_support: SupportFacts { entry: None, items: vec![] },
    }
}

fn summary(requested: Vec<Effect>, defaults: Vec<Effect>) -> EffectSummary {
    EffectSummary {
        requested_actions: EffectRow { effects: requested },
        default_actions: EffectRow { effects: defaults },
    }
}

fn runnable() -> CheckedProject {
    let mut checked = empty_project();
    let scope = checked.hir.scopes.allocate(None, ScopeOwner::Module);
    checked.hir.items.push(HirItem::Flow(FlowDecl { scope, params: vec![] }));
    checked.hir.items.push(HirItem::TopLevelLet);
    checked.hir.item_exprs = vec![vec![], vec![]];
    checked.entry = Some(ItemId(0));
    checked.reachability.reachable_items.push(ItemId(0));
    checked.symbols.allocate(
        "limit".to_string(),
        SymbolKind::Item,
        SymbolDef::TopLevelLet { item: ItemId(1), classification: TopLevelLetClassification::Const },
    );
    checked.symbols.allocate(
        "db".to_string(),
        SymbolKind::Item,
        SymbolDef::TopLevelLet { item: ItemId(1), classification: TopLevelLetClassification::ResourceHandle(0) },
    );
    checked.effects.item_effects = vec![
        Some(summary(vec![Effect::Action(ActionRef(7))], vec![])),
        Some(summary(vec![Effect::AppliedAction { action: ActionRef(3) }], vec![Effect::Action(ActionRef(9))])),
    ];
    checked.interpreter_support.entry = Some(InterpreterSupport { requirements: vec!["clock".to_string()] });
    checked
}

fn messages(result: &etas_interpreter::plan::PlanResult) -> Vec<String> {
    result.diagnostics.iter().map(|d| d.message.clone()).collect()
}

#[test]
fn a_complete_project_gets_a_plan_without_diagnostics() {
    let checked = runnable();
    let result = build_plan(&checked, StdIntrinsicHandlerRegistry { handlers: vec![] });
    assert!(result.diagnostics.is_empty());
    let plan = result.plan.unwrap();
    assert_eq!(plan.entry.item, ItemId(0));
    assert_eq!(plan.globals.constants.len(), 1);
    assert_eq!(plan.globals.constants[0].symbol, SymbolId(0));
    assert_eq!(plan.resources.handles.len(), 1);
    assert_eq!(plan.resources.handles[0].symbol, SymbolId(1));
    assert!(plan.action_mediation.requires_action(&ActionRef(7)));
    assert!(plan.action_mediation.requires_action(&ActionRef(3)));
    assert!(plan.action_mediation.requires_action(&ActionRef(9)));
    assert!(plan.action_mediation.has_default_action(&ActionRef(9)));
    assert!(!plan.action_mediation.has_default_action(&ActionRef(7)));
    assert!(!plan.action_mediation.requires_action(&ActionRef(1)));
    assert_eq!(plan.host_requirements.entry.unwrap().requirements, vec!["clock".to_string()]);
    assert!(plan.diagnostics.is_empty());
}

#[test]
fn a_project_without_entry_reports_every_missing_table() {
    let mut checked = runnable();
    checked.entry = None;
    checked.interpreter_support.entry = None;
    let result = build_plan(&checked, StdIntrinsicHandlerRegistry { handlers: vec![] });
    assert!(result.plan.is_none());
    assert_eq!(
        messages(&result),
        vec![
            "checked project does not contain interpreter-support facts",
            "checked project does not contain a resolved entry item",
            "interpreter plan is missing entry facts",
            "interpreter plan is missing host requirement facts",
            "interpreter plan is missing action mediation facts",
        ]
    );
    assert_eq!(result.diagnostics[1].kind, DiagnosticKind::MissingEntry);
    assert_eq!(result.diagnostics[0].kind, DiagnosticKind::MissingCheckedFact);
}

#[test]
fn missing_entry_facts_block_the_plan() {
    let mut checked = runnable();
    checked.effects.item_effects[0] = None;
    checked.interpreter_support.entry = None;
    checked.interpreter_support.items.push((ItemId(5), InterpreterSupport { requirements: vec![] }));
    let result = build_plan(&checked, StdIntrinsicHandlerRegistry { handlers: vec![] });
    assert!(result.plan.is_none());
    assert_eq!(
        messages(&result),
        vec![
            "checked project is missing interpreter-support facts for the selected entry",
            "checked project is missing effect summary for action mediation",
            "interpreter plan is missing action mediation facts",
        ]
    );
}

#[test]
fn support_facts_of_the_entry_item_stand_in_for_entry_facts() {
    let mut checked = runnable();
    checked.interpreter_support.entry = None;
    checked.interpreter_support.items.push((ItemId(0), InterpreterSupport { requirements: vec!["net".to_string()] }));
    let result = build_plan(&checked, StdIntrinsicHandlerRegistry { handlers: vec![] });
    let plan = result.plan.unwrap();
    assert_eq!(plan.host_requirements.entry.unwrap().requirements, vec!["net".to_string()]);
}

#[test]
fn dispatch_failures_are_reported_as_missing_facts() {
    let mut checked = runnable();
    checked.reachability.reachable_items.push(ItemId(9));
    let result = build_plan(&checked, StdIntrinsicHandlerRegistry { handlers: vec![] });
    assert!(result.plan.is_none());
    assert_eq!(
        messages(&result),
        vec![
            "entry reachability references missing HIR item 9",
            "interpreter plan is missing intrinsic dispatch facts",
        ]
    );
}

#[test]
fn global_and_resource_tables_keep_symbol_order() {
    let checked = runnable();
    let globals = GlobalTable::for_project(&checked);
    let resources = ResourceTable::for_project(&checked);
    assert_eq!(globals.constants.len(), 1);
    assert_eq!(resources.handles.len(), 1);
}

#[test]
fn action_mediation_collects_entry_and_top_level_let_actions() {
    let checked = runnable();
    let table = ActionMediationTable::for_entry(&checked, ItemId(0)).ok().unwrap();
    assert!(table.requires_action(&ActionRef(7)));
    assert!(table.has_default_action(&ActionRef(9)));
    assert_eq!(
        ActionMediationTable::for_entry(&checked, ItemId(4)).err().unwrap(),
        "checked project is missing effect summary for action mediation"
    );
}

#[test]
fn plan_collects_host_requirements_for_agent_entry() {
    // agent Writer(input: string) -> string { return Prompt.new().user(Public(input)); }
    // flow main(input: string) -> string { return Writer.run(input); }
    let mut checked = empty_project();
    let module = checked.hir.scopes.allocate(None, ScopeOwner::Module);
    let writer = checked.hir.scopes.allocate(Some(module), ScopeOwner::Item(ItemId(0)));
    let main = checked.hir.scopes.allocate(Some(module), ScopeOwner::Item(ItemId(1)));
    checked.hir.items.push(HirItem::Agent(FlowDecl { scope: writer, params: vec![] }));
    checked.hir.items.push(HirItem::Flow(FlowDecl { scope: main, params: vec![] }));
    checked.hir.item_exprs = vec![vec![], vec![]];
    checked.entry = Some(ItemId(1));
    checked.reachability.reachable_items = vec![ItemId(1), ItemId(0)];
    checked.effects.item_effects = vec![Some(summary(vec![], vec![])), Some(summary(vec![], vec![]))];
    // the checker records that the entry reaches agent inference, which needs the host
    checked.interpreter_support.entry =
        Some(InterpreterSupport { requirements: vec!["Agentic".to_string()] });
    let plan = build_plan(&checked, StdIntrinsicHandlerRegistry { handlers: vec![] }).plan.unwrap();
    let requirements = plan.host_requirements.entry.expect("expected host requirement for agent inference");
    assert!(requirements.requirements.contains(&"Agentic".to_string()));
}
