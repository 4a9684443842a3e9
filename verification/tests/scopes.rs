use etas_interpreter::ids::{HirBlockId, HirExprId, ScopeId};
use etas_interpreter::scope_tree::{ScopeOwner, ScopeTree};
use etas_interpreter::scopes::{ClosureScope, ClosureScopes};

fn block() -> ScopeOwner {
    ScopeOwner::Block(HirBlockId(0))
}

fn parent_walk(scopes: &ScopeTree, start: ScopeId) -> Vec<ScopeId> {
    let mut ancestors = Vec::new();
    let mut current = Some(start);
    while let Some(id) = current {
        let ancestor = scopes.get(id).unwrap();
        ancestors.push(id);
        current = ancestor.parent;
    }
    ancestors
}

#[test]
fn missing_parents_and_parent_cycles_are_rejected() {
    let mut missing = ScopeTree::new();
    missing.allocate(Some(ScopeId(7)), block());
    assert!(ClosureScopes::build(&missing)
        .err()
        .unwrap()
        .contains("missing closure scope parent"));
    let mut cyclic = ScopeTree::new();
    cyclic.allocate(None, block());
    cyclic.allocate(Some(ScopeId(2)), block());
    cyclic.allocate(Some(ScopeId(1)), block());
    assert!(ClosureScopes::build(&cyclic).err().unwrap().contains("cyclic"));
    let mut self_cycle = ScopeTree::new();
    self_cycle.allocate(Some(ScopeId(0)), block());
    assert!(ClosureScopes::build(&self_cycle).err().unwrap().contains("cyclic"));
}

#[test]
fn forward_parent_references_do_not_require_allocation_order() {
    let mut scopes = ScopeTree::new();
    let child = scopes.allocate(Some(ScopeId(1)), block());
    let root = scopes.allocate(None, ScopeOwner::Lambda(HirExprId(5)));
    let index = ClosureScopes::build(&scopes).unwrap();
    assert!(index.contains(root, child).unwrap());
    assert!(!index.contains(child, root).unwrap());
    assert_eq!(
        index.nearest(child).unwrap(),
        Some(ClosureScope { scope: root, expr: HirExprId(5) })
    );
    assert!(index.nearest(ScopeId(99)).is_err());
}

#[test]
fn intervals_and_nearest_closures_agree_with_lexical_parent_walks() {
    let mut scopes = ScopeTree::new();
    for n in 0..96u32 {
        let parent = if n % 13 == 0 { None } else { Some(ScopeId((n * 17 + 3) % n)) };
        let owner = if n % 5 == 0 { ScopeOwner::Lambda(HirExprId(n)) } else { block() };
        scopes.allocate(parent, owner);
    }
    let index = ClosureScopes::build(&scopes).unwrap();
    for i in 0..scopes.len() {
        let scope = scopes.at(i).id;
        let ancestors = parent_walk(&scopes, scope);
        for j in 0..scopes.len() {
            let possible = scopes.at(j).id;
            assert_eq!(index.contains(possible, scope).unwrap(), ancestors.contains(&possible));
        }
        let closures: Vec<ClosureScope> = ancestors
            .iter()
            .filter_map(|id| match scopes.get(*id).unwrap().owner {
                ScopeOwner::Lambda(expr) => Some(ClosureScope { scope: *id, expr }),
                _ => None,
            })
            .collect();
        assert_eq!(index.nearest(scope).unwrap(), closures.first().copied());
        for (position, closure) in closures.iter().enumerate() {
            assert_eq!(index.outer(*closure).unwrap(), closures.get(position + 1).copied());
        }
    }
}

#[test]
fn deep_scope_queries_do_not_allocate_or_rewalk_parent_chains() {
    let mut scopes = ScopeTree::new();
    let root = scopes.allocate(None, ScopeOwner::Lambda(HirExprId(1)));
    let mut last = root;
    for _ in 0..30_000 {
        last = scopes.allocate(Some(last), block());
    }
    let index = ClosureScopes::build(&scopes).unwrap();
    for i in 0..scopes.len() {
        let scope = scopes.at(i).id;
        assert!(index.contains(root, scope).unwrap());
        assert_eq!(index.nearest(scope).unwrap().unwrap().scope, root);
    }
    assert!(index.contains(root, last).unwrap());
}

#[test]
fn queries_on_missing_scopes_name_the_scope() {
    let mut scopes = ScopeTree::new();
    let root = scopes.allocate(None, block());
    let index = ClosureScopes::build(&scopes).unwrap();
    assert_eq!(
        index.contains(ScopeId(4), root).unwrap_err(),
        "missing closure scope ScopeId(4)"
    );
    assert_eq!(
        index.contains(root, ScopeId(12)).unwrap_err(),
        "missing closure scope ScopeId(12)"
    );
    assert_eq!(index.nearest(root).unwrap(), None);
}

#[test]
fn outer_closure_of_a_nested_lambda_is_the_enclosing_lambda() {
    let mut scopes = ScopeTree::new();
    let module = scopes.allocate(None, block());
    let outer = scopes.allocate(Some(module), ScopeOwner::Lambda(HirExprId(3)));
    let body = scopes.allocate(Some(outer), block());
    let inner = scopes.allocate(Some(body), ScopeOwner::Lambda(HirExprId(8)));
    let index = ClosureScopes::build(&scopes).unwrap();
    let inner_closure = index.nearest(inner).unwrap().unwrap();
    assert_eq!(inner_closure, ClosureScope { scope: inner, expr: HirExprId(8) });
    assert_eq!(
        index.outer(inner_closure).unwrap(),
        Some(ClosureScope { scope: outer, expr: HirExprId(3) })
    );
    assert_eq!(index.outer(ClosureScope { scope: outer, expr: HirExprId(3) }).unwrap(), None);
    assert!(index.contains(outer, inner).unwrap());
    assert!(!index.contains(inner, module).unwrap());
}
