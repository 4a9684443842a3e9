//! The facts of a checked program that planning reads: symbols, items,
//! expressions, patterns, types and effects. Identifiers index these tables.
use vstd::prelude::*;

use crate::ids::{HirExprId, HirPatId, ItemId, ScopeId, SymbolId, TypeId};
use crate::scope_tree::ScopeTree;

verus! {

/// How a symbol is introduced.
#[derive(Clone, Copy, Debug, PartialEq, Eq, Structural)]
pub enum SymbolKind {
    Param,
    Local,
    Item,
    Other,
}

/// How a top-level `let` is used at run time.
#[derive(Clone, Copy, Debug, PartialEq, Eq, Structural)]
pub enum TopLevelLetClassification {
    Const,
    ResourceHandle(u32),
    Runtime,
}

/// What a symbol stands for.
pub enum SymbolDef {
    PatternBinding { pat: HirPatId },
    TopLevelLet { item: ItemId, classification: TopLevelLetClassification },
    ImportAlias { path: String },
    EnumVariant { enum_item: ItemId, variant_index: u32 },
    Other,
}

/// One symbol of the checked program.
pub struct SymbolData {
    pub id: SymbolId,
    pub name: String,
    pub kind: SymbolKind,
    pub def: SymbolDef,
}

/// All symbols; a symbol's identifier is its position.
pub struct SymbolTable {
    symbols: Vec<SymbolData>,
}

impl View for SymbolTable {
    type V = Seq<SymbolData>;

    closed spec fn view(&self) -> Seq<SymbolData> {
        self.symbols@
    }
}

/// Symbols are numbered by position and their number fits in an identifier.
pub open spec fn symbols_numbered(symbols: Seq<SymbolData>) -> bool {
    &&& symbols.len() <= u32::MAX
    &&& forall|i: int| 0 <= i < symbols.len() ==> (#[trigger] symbols[i]).id.0 == i
}

impl SymbolTable {
    #[verifier::type_invariant]
    closed spec fn inv(self) -> bool {
        symbols_numbered(self.symbols@)
    }

    pub fn new() -> (t: Self)
        ensures
            t@ == Seq::<SymbolData>::empty(),
    {
        SymbolTable { symbols: Vec::new() }
    }

    /// Adds a symbol and returns its identifier.
    pub fn allocate(&mut self, name: String, kind: SymbolKind, def: SymbolDef) -> (id: SymbolId)
        requires
            old(self)@.len() < u32::MAX,
        ensures
            id.0 == old(self)@.len(),
            final(self)@ == old(self)@.push(SymbolData { id, name, kind, def }),
    {
        proof {
            use_type_invariant(&*self);
        }
        let id = SymbolId(self.symbols.len() as u32);
        let mut symbols = Vec::new();
        std::mem::swap(&mut symbols, &mut self.symbols);
        symbols.push(SymbolData { id, name, kind, def });
        self.symbols = symbols;
        id
    }

    /// The number of symbols; symbols are numbered by position.
    pub fn len(&self) -> (n: usize)
        ensures
            n == self@.len(),
            symbols_numbered(self@),
    {
        proof {
            use_type_invariant(self);
        }
        self.symbols.len()
    }

    /// The symbol at position `i`.
    pub fn at(&self, i: usize) -> (s: &SymbolData)
        requires
            i < self@.len(),
        ensures
            *s == self@[i as int],
    {
        &self.symbols[i]
    }

    /// The symbol with identifier `id`, if there is one.
    pub fn get(&self, id: SymbolId) -> (s: Option<&SymbolData>)
        ensures
            id.0 < self@.len() ==> s == Some(&self@[id.0 as int]),
            id.0 >= self@.len() ==> s is None,
    {
        let i = id.0 as usize;
        if i < self.symbols.len() {
            Some(&self.symbols[i])
        } else {
            None
        }
    }
}

/// A callable's frame scope and parameters.
pub struct FlowDecl {
    pub scope: ScopeId,
    pub params: Vec<SymbolId>,
}

/// A member of an `impl` block.
pub enum HirImplItem {
    Flow(FlowDecl),
    Other,
}

/// One variant of an enum; named variants list their field names.
pub struct VariantDecl {
    pub name: String,
    pub field_names: Option<Vec<String>>,
}

/// A top-level item.
pub enum HirItem {
    Flow(FlowDecl),
    Tool(FlowDecl),
    Agent(FlowDecl),
    Impl(Vec<HirImplItem>),
    Enum(Vec<VariantDecl>),
    TopLevelLet,
    Other,
}

/// Why a path resolved only in part.
#[derive(Clone, Copy, Debug, PartialEq, Eq, Structural)]
pub enum PartialResolutionReason {
    MemberRequiresTypeChecking,
    Other,
}

/// A path of which only a prefix names a symbol.
pub struct PartialResolution {
    pub resolved_prefix: Option<SymbolId>,
    pub remaining: Vec<String>,
    pub reason: PartialResolutionReason,
}

/// What name resolution made of a path.
pub enum ResolveResult {
    Resolved(SymbolId),
    PartiallyResolved(PartialResolution),
    Unresolved,
}

/// A resolved path.
pub struct HirPath {
    pub resolution: ResolveResult,
}

/// A field of a record literal.
pub enum HirFieldInit {
    Named { name: String, value: HirExprId },
    Shorthand { name: String, resolution: ResolveResult },
}

/// A record literal, optionally naming a constructor.
pub struct HirRecordExpr {
    pub path: Option<HirPath>,
    pub fields: Vec<HirFieldInit>,
}

/// An argument of a call.
pub enum HirArg {
    Positional(HirExprId),
    Named { name: String, value: HirExprId },
}

/// An expression.
pub enum HirExpr {
    Lambda,
    Path(HirPath),
    Record(HirRecordExpr),
    Field { base: HirExprId, field: String },
    Call { args: Vec<HirArg> },
    Perform { args: Vec<HirArg> },
    Other,
}

/// A field of a record pattern.
#[derive(Clone, Debug)]
pub struct HirRecordPatField {
    pub name: String,
    pub pat: Option<HirPatId>,
}

/// A pattern.
pub enum HirPat {
    Record { path: Option<HirPath>, fields: Vec<HirRecordPatField> },
    Other,
}

/// A handler arm and the scope of its body.
pub struct HandlerArm {
    pub scope: ScopeId,
}

/// The program tree: arenas indexed by identifier.
pub struct HirProgram {
    pub items: Vec<HirItem>,
    pub exprs: Vec<HirExpr>,
    pub pats: Vec<HirPat>,
    pub scopes: ScopeTree,
    pub handler_arms: Vec<HandlerArm>,
    /// The innermost scope around each expression.
    pub expr_scopes: Vec<Option<ScopeId>>,
    /// The expressions inside each item.
    pub item_exprs: Vec<Vec<HirExprId>>,
}

/// A checked type.
pub enum Type {
    Record(Vec<String>),
    Nominal { representation: Option<TypeId> },
    Applied { constructor: TypeId },
    Refined { base: TypeId },
    MapOf,
    Other,
}

/// A checked field access: from `receiver`, field `field` has type `output`.
pub struct FieldProjection {
    pub receiver: TypeId,
    pub field: String,
    pub output: TypeId,
}

/// The checked type of a symbol.
#[derive(Clone, Copy, Debug, PartialEq, Eq, Structural)]
pub enum SymbolTypeFact {
    Param { ty: TypeId },
    Local { ty: TypeId },
    Value { ty: TypeId },
    Field { ty: TypeId },
    TopLevelLet { ty: TypeId },
    Other,
}

/// Types the checker gave to expressions, patterns and symbols.
pub struct TypeFacts {
    pub expr_types: Vec<Option<TypeId>>,
    pub pattern_types: Vec<Option<TypeId>>,
    pub field_projections: Vec<Option<Vec<FieldProjection>>>,
    pub symbol_types: Vec<Option<SymbolTypeFact>>,
}

} // verus!

verus! {

/// A standard intrinsic.
#[derive(Clone, Copy, Debug, PartialEq, Eq, Structural)]
pub struct StdIntrinsicId(pub u32);

/// How a standard intrinsic is dispatched.
#[derive(Clone, Copy, Debug, PartialEq, Eq, Structural)]
pub enum IntrinsicDispatch {
    PureKernel,
    Runtime,
}

/// The intrinsic behind a standard library symbol.
pub struct IntrinsicDescriptor {
    pub id: StdIntrinsicId,
    pub dispatch: IntrinsicDispatch,
    /// The qualified path of the symbol.
    pub name: String,
}

/// A standard library symbol and the intrinsic it stands for, if any.
pub struct StdSymbol {
    pub path: String,
    pub intrinsic: Option<IntrinsicDescriptor>,
}

/// The standard library symbols known to the checker.
pub struct StdRegistry {
    pub symbols: Vec<StdSymbol>,
}

/// The items reachable from the entry.
pub struct Reachability {
    pub reachable_items: Vec<ItemId>,
}

/// An action that effects name.
#[derive(Clone, Copy, Debug, PartialEq, Eq, Structural)]
pub struct ActionRef(pub u32);

/// An effect of an item.
pub enum Effect {
    Action(ActionRef),
    AppliedAction { action: ActionRef },
    Other,
}

/// A row of effects.
pub struct EffectRow {
    pub effects: Vec<Effect>,
}

/// The effects of an item: the actions it requests and those it performs by default.
pub struct EffectSummary {
    pub requested_actions: EffectRow,
    pub default_actions: EffectRow,
}

/// The effect summaries of the items, by item.
pub struct EffectFacts {
    pub item_effects: Vec<Option<EffectSummary>>,
}

/// What the interpreter must support to run an item.
pub struct InterpreterSupport {
    pub requirements: Vec<String>,
}

/// Interpreter-support facts: for the entry, and by item.
pub struct SupportFacts {
    pub entry: Option<InterpreterSupport>,
    pub items: Vec<(ItemId, InterpreterSupport)>,
}

/// The checked program as planning sees it.
pub struct CheckedProject {
    pub entry: Option<ItemId>,
    pub hir: HirProgram,
    pub symbols: SymbolTable,
    pub types: TypeFacts,
    pub type_store: Vec<Type>,
    pub std_registry: StdRegistry,
    pub reachability: Reachability,
    pub effects: EffectFacts,
    pub interpreter_support: SupportFacts,
}

/// The name a record literal field gives.
pub open spec fn field_init_name(f: HirFieldInit) -> Seq<char> {
    match f {
        HirFieldInit::Named { name, .. } => name@,
        HirFieldInit::Shorthand { name, .. } => name@,
    }
}

/// The names of a record literal's fields, in source order.
pub open spec fn field_init_names(fields: Seq<HirFieldInit>) -> Seq<Seq<char>> {
    fields.map_values(|f: HirFieldInit| field_init_name(f))
}

/// The name of a record literal field.
pub fn field_init_name_of(f: &HirFieldInit) -> (s: String)
    ensures
        s@ == field_init_name(*f),
{
    match f {
        HirFieldInit::Named { name, .. } => name.clone(),
        HirFieldInit::Shorthand { name, .. } => name.clone(),
    }
}

/// The names of a record literal's fields, in source order.
pub fn field_init_names_of(fields: &Vec<HirFieldInit>) -> (v: Vec<String>)
    ensures
        v@.map_values(|s: String| s@) == field_init_names(fields@),
{
    let mut v: Vec<String> = Vec::new();
    for i in 0..fields.len()
        invariant
            v@.len() == i,
            i <= fields@.len(),
            forall|k: int| 0 <= k < i ==> (#[trigger] v@[k])@ == field_init_name(fields@[k]),
    {
        v.push(field_init_name_of(&fields[i]));
    }
    proof {
        assert(v@.map_values(|s: String| s@) =~= field_init_names(fields@));
    }
    v
}

} // verus!
