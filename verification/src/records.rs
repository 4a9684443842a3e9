//! Record layouts: the checked field names of record types, in sorted order, and the
//! slots that record literals, field reads, value paths and record patterns use.
use vstd::prelude::*;

use crate::ids::{HirExprId, HirPatId, SymbolId, TypeId};
use crate::names::{compare_names, lemma_name_order, name_before, names_increasing, sorted_distinct};
use crate::program::{
    field_init_names, field_init_names_of, HirFieldInit, CheckedProject, FieldProjection, HirExpr, HirPat, HirRecordPatField,
    PartialResolutionReason, ResolveResult, SymbolTypeFact, Type,
};
use crate::variants::{distinct_names, names_of};
use std::collections::HashMap;

verus! {

/// The type that `i` stands for when looking for record fields: the representation of a
/// nominal type, the constructor of an applied type, the base of a refined type.
pub open spec fn type_next(store: Seq<Type>, i: int) -> Option<int> {
    match store[i] {
        Type::Nominal { representation: Some(r) } => Some(r.0 as int),
        Type::Applied { constructor } => Some(constructor.0 as int),
        Type::Refined { base } => Some(base.0 as int),
        _ => None,
    }
}

/// The type reached from `ty` after `k` steps, if the walk goes that far.
pub open spec fn type_at(store: Seq<Type>, ty: int, k: nat) -> Option<int>
    decreases k,
{
    if k == 0 {
        Some(ty)
    } else {
        match type_next(store, ty) {
            Some(n) => type_at(store, n, (k - 1) as nat),
            None => None,
        }
    }
}

/// The first `k + 1` types of the walk from `ty` exist.
pub open spec fn walk_in_range(store: Seq<Type>, ty: int, k: nat) -> bool {
    forall|j: nat| j <= k ==> (#[trigger] type_at(store, ty, j) matches Some(x) && 0 <= x < store.len())
}

/// The walk from `ty` stops at step `k`.
pub open spec fn walk_ends_at(store: Seq<Type>, ty: int, k: nat) -> bool {
    &&& walk_in_range(store, ty, k)
    &&& type_next(store, type_at(store, ty, k)->0) is None
}

/// The walk from `ty` stops through existing types.
pub open spec fn walk_ok(store: Seq<Type>, ty: int) -> bool {
    exists|k: nat| #[trigger] walk_ends_at(store, ty, k)
}

/// The walk from `ty` reaches a type that does not exist.
pub open spec fn walk_missing(store: Seq<Type>, ty: int) -> bool {
    exists|k: nat|
        (#[trigger] type_at(store, ty, k) matches Some(x) && !(0 <= x < store.len())) && (k == 0
            || walk_in_range(store, ty, (k - 1) as nat))
}

/// What walking from `ty` reports when it fails.
pub open spec fn walk_error(store: Seq<Type>, ty: int, m: Seq<char>) -> bool {
    &&& !walk_ok(store, ty)
    &&& if walk_missing(store, ty) {
        m == "record layout references a missing checked type"@
    } else {
        m == "cyclic nominal representation in checked record layout"@
    }
}

/// The type where the walk from `ty` settles, looking at most `k` steps ahead.
pub open spec fn settle(store: Seq<Type>, ty: int, k: nat) -> int
    decreases k,
{
    if k == 0 {
        ty
    } else {
        match type_next(store, ty) {
            Some(n) => settle(store, n, (k - 1) as nat),
            None => ty,
        }
    }
}

/// The type where a successful walk from `ty` stops.
pub open spec fn walk_end(store: Seq<Type>, ty: int) -> int {
    settle(store, ty, store.len())
}

/// The field names a type declares, if it is a record type.
pub open spec fn declared_names(t: Type) -> Option<Seq<Seq<char>>> {
    match t {
        Type::Record(names) => Some(names_of(names@)),
        _ => None,
    }
}

/// `v` lists `names` in increasing order.
pub open spec fn sorted_names_of(v: Seq<Seq<char>>, names: Seq<Seq<char>>) -> bool {
    names_increasing(v) && v.to_set() == names.to_set()
}

proof fn lemma_type_step(store: Seq<Type>, ty: int, k: nat)
    requires
        type_at(store, ty, k) is Some,
    ensures
        type_at(store, ty, k + 1) == type_next(store, type_at(store, ty, k)->0),
    decreases k,
{
    reveal_with_fuel(type_at, 2);
    if k > 0 {
        let n = type_next(store, ty)->0;
        lemma_type_step(store, n, (k - 1) as nat);
        assert(((k - 1) as nat + 1) as nat == k);
    }
}

proof fn lemma_type_none_after(store: Seq<Type>, ty: int, k: nat, m: nat)
    requires
        type_at(store, ty, k) is None,
        k <= m,
    ensures
        type_at(store, ty, m) is None,
    decreases m,
{
    if m > 0 && k > 0 {
        if let Some(n) = type_next(store, ty) {
            lemma_type_none_after(store, n, (k - 1) as nat, (m - 1) as nat);
        }
    } else if m > 0 {
        assert(type_at(store, ty, 0) is Some);
    }
}

proof fn lemma_type_compose(store: Seq<Type>, ty: int, j: nat, k: nat)
    requires
        type_at(store, ty, j) is Some,
    ensures
        type_at(store, type_at(store, ty, j)->0, k) == type_at(store, ty, j + k),
    decreases j,
{
    if j > 0 {
        let n = type_next(store, ty)->0;
        lemma_type_compose(store, n, (j - 1) as nat, k);
        assert((j - 1) as nat + k == (j + k - 1) as nat);
    }
}

/// A walk that revisits a type runs forever through existing types.
proof fn lemma_walk_cycle(store: Seq<Type>, ty: int, j: nat, k: nat, m: nat)
    requires
        j < k,
        walk_in_range(store, ty, k),
        type_at(store, ty, j) == type_at(store, ty, k),
    ensures
        (type_at(store, ty, m) matches Some(x) && 0 <= x < store.len()),
    decreases m,
{
    if m <= k {
        assert(type_at(store, ty, m) matches Some(x) && 0 <= x < store.len());
    } else {
        let d = (m - k) as nat;
        lemma_type_compose(store, ty, k, d);
        lemma_type_compose(store, ty, j, d);
        lemma_walk_cycle(store, ty, j, k, (j + d) as nat);
    }
}

proof fn lemma_walk_cycle_fails(store: Seq<Type>, ty: int, j: nat, k: nat)
    requires
        j < k,
        walk_in_range(store, ty, k),
        type_at(store, ty, j) == type_at(store, ty, k),
    ensures
        !walk_ok(store, ty),
        !walk_missing(store, ty),
{
    if walk_ok(store, ty) {
        let e = choose|e: nat| #[trigger] walk_ends_at(store, ty, e);
        lemma_walk_cycle(store, ty, j, k, e + 1);
        lemma_type_step(store, ty, e);
    }
    if walk_missing(store, ty) {
        let e = choose|e: nat|
            (#[trigger] type_at(store, ty, e) matches Some(x) && !(0 <= x < store.len())) && (e == 0
                || walk_in_range(store, ty, (e - 1) as nat));
        lemma_walk_cycle(store, ty, j, k, e);
    }
}

proof fn lemma_walk_missing_fails(store: Seq<Type>, ty: int)
    requires
        walk_missing(store, ty),
    ensures
        !walk_ok(store, ty),
{
    if walk_ok(store, ty) {
        let e = choose|e: nat| #[trigger] walk_ends_at(store, ty, e);
        let k = choose|k: nat|
            (#[trigger] type_at(store, ty, k) matches Some(x) && !(0 <= x < store.len())) && (k == 0
                || walk_in_range(store, ty, (k - 1) as nat));
        if k <= e {
            assert(type_at(store, ty, k) matches Some(x) && 0 <= x < store.len());
        } else {
            lemma_type_step(store, ty, e);
            lemma_type_none_after(store, ty, e + 1, k);
        }
    }
}

/// A walk that stops at step `k` settles where it stops.
proof fn lemma_settle(store: Seq<Type>, ty: int, k: nat, m: nat)
    requires
        walk_ends_at(store, ty, k),
        k <= m,
    ensures
        settle(store, ty, m) == type_at(store, ty, k)->0,
    decreases k,
{
    if k > 0 {
        assert(type_at(store, ty, 1) matches Some(x) && 0 <= x < store.len());
        assert(type_at(store, ty, 0) == Some(ty));
        assert(type_next(store, ty) is Some);
        let n = type_next(store, ty)->0;
        assert(type_at(store, n, 0) == Some(n));
        assert(type_at(store, ty, 1) == Some(n));
        assert forall|j: nat| j <= (k - 1) as nat implies (#[trigger] type_at(store, n, j) matches Some(x)
            && 0 <= x < store.len()) by {
            lemma_type_compose(store, ty, 1, j);
            assert(type_at(store, ty, 1 + j) matches Some(x) && 0 <= x < store.len());
        }
        lemma_type_compose(store, ty, 1, (k - 1) as nat);
        assert(type_at(store, n, (k - 1) as nat) == type_at(store, ty, k));
        lemma_settle(store, n, (k - 1) as nat, (m - 1) as nat);
    } else if m > 0 {
        assert(type_at(store, ty, 0) == Some(ty));
    }
}

/// Walks from `ty` through representations to the type that decides its record shape.
fn walk_type(store: &Vec<Type>, ty: TypeId) -> (r: Result<usize, String>)
    ensures
        match r {
            Ok(end) => walk_ok(store@, ty.0 as int) && end == walk_end(store@, ty.0 as int) && end
                < store@.len(),
            Err(m) => walk_error(store@, ty.0 as int, m@),
        },
{
    let n = store.len();
    let ghost st = store@;
    let ghost s = ty.0 as int;
    let mut seen: Vec<bool> = Vec::new();
    for i in 0..n
        invariant
            seen@.len() == i,
            forall|k: int| 0 <= k < i ==> !(#[trigger] seen@[k]),
    {
        seen.push(false);
    }
    let mut path: Vec<usize> = Vec::new();
    let mut current: usize = ty.0 as usize;
    proof {
        assert(type_at(st, s, 0) == Some(s));
    }
    loop
        invariant
            n == st.len(),
            st == store@,
            s == ty.0 as int,
            seen@.len() == n,
            path@.len() <= n,
            type_at(st, s, path@.len() as nat) == Some(current as int),
            path@.len() > 0 ==> walk_in_range(st, s, (path@.len() - 1) as nat),
            forall|j: int|
                0 <= j < path@.len() ==> type_at(st, s, j as nat) == Some(#[trigger] path@[j] as int)
                    && path@[j] < n,
            forall|x: int| 0 <= x < n ==> (#[trigger] seen@[x] <==> path@.contains(x as usize)),
            forall|a: int, b: int| 0 <= a < b < path@.len() ==> path@[a] != path@[b],
        decreases n - path@.len(),
    {
        let k = path.len();
        if current < n && seen[current] {
            proof {
                let j = choose|j: int| 0 <= j < path@.len() && path@[j] == current;
                assert forall|i: nat| i <= k implies (#[trigger] type_at(st, s, i) matches Some(x) && 0
                    <= x < st.len()) by {
                    if i < k {
                        assert(type_at(st, s, i) == Some(path@[i as int] as int));
                    }
                }
                lemma_walk_cycle_fails(st, s, j as nat, k as nat);
            }
            return Err("cyclic nominal representation in checked record layout".to_owned());
        }
        if current >= n {
            proof {
                assert(walk_missing(st, s));
                lemma_walk_missing_fails(st, s);
            }
            return Err("record layout references a missing checked type".to_owned());
        }
        let ghost p0 = path@;
        seen.set(current, true);
        path.push(current);
        proof {
            assert forall|j: nat| j <= k implies (#[trigger] type_at(st, s, j) matches Some(x) && 0
                <= x < st.len()) by {
                if j < k {
                    assert(type_at(st, s, j) == Some(p0[j as int] as int));
                }
            }
            assert forall|x: int| 0 <= x < n implies (#[trigger] seen@[x] <==> path@.contains(
                x as usize,
            )) by {
                if x == current {
                    assert(path@[k as int] == current);
                } else if p0.contains(x as usize) {
                    let a = choose|a: int| 0 <= a < p0.len() && p0[a] == x as usize;
                    assert(path@[a] == x as usize);
                } else if path@.contains(x as usize) {
                    let a = choose|a: int| 0 <= a < path@.len() && path@[a] == x as usize;
                    assert(a != k);
                    assert(p0[a] == x as usize);
                }
            }
            crate::captures::lemma_seen_count(seen@, path@);
            lemma_type_step(st, s, k as nat);
        }
        let next = match &store[current] {
            Type::Nominal { representation: Some(r) } => Some(r.0 as usize),
            Type::Applied { constructor } => Some(constructor.0 as usize),
            Type::Refined { base } => Some(base.0 as usize),
            _ => None,
        };
        match next {
            Some(t) => {
                current = t;
            },
            None => {
                proof {
                    assert(walk_ends_at(st, s, k as nat));
                    lemma_settle(st, s, k as nat, n as nat);
                }
                return Ok(current);
            },
        }
    }
}

/// The sorted field names of the record type that `ty` stands for; `None` when it stands
/// for no record type.
pub fn record_shape(store: &Vec<Type>, ty: TypeId) -> (r: Result<Option<Vec<String>>, String>)
    ensures
        match r {
            Ok(shape) => walk_ok(store@, ty.0 as int) && match declared_names(
                store@[walk_end(store@, ty.0 as int)],
            ) {
                Some(d) => distinct_names(d) && (shape matches Some(v) && sorted_names_of(
                    names_of(v@),
                    d,
                )),
                None => shape is None,
            },
            Err(m) => walk_error(store@, ty.0 as int, m@) || walk_ok(store@, ty.0 as int) && (
            declared_names(store@[walk_end(store@, ty.0 as int)]) matches Some(d)
                && !distinct_names(d)) && m@ == "checked record type has duplicate field names"@,
        },
{
    let end = match walk_type(store, ty) {
        Ok(end) => end,
        Err(m) => {
            return Err(m);
        },
    };
    match &store[end] {
        Type::Record(names) => match sorted_distinct(names) {
            Some(v) => Ok(Some(v)),
            None => Err("checked record type has duplicate field names".to_owned()),
        },
        _ => Ok(None),
    }
}


/// A checked field of a record type: the type's sorted field names and the slot of one
/// of them.
pub struct CheckedRecordField {
    names: Vec<String>,
    slot: usize,
}

impl CheckedRecordField {
    #[verifier::type_invariant]
    spec fn inv(self) -> bool {
        self.slot < self.names@.len()
    }

    /// The sorted field names of the record type.
    pub closed spec fn names(&self) -> Seq<Seq<char>> {
        names_of(self.names@)
    }

    /// The slot of the field among the sorted names.
    pub closed spec fn slot(&self) -> int {
        self.slot as int
    }

    /// The field's slot.
    pub fn slot_index(&self) -> (i: usize)
        ensures
            i == self.slot(),
            i < self.names().len(),
    {
        proof {
            use_type_invariant(self);
        }
        self.slot
    }

    /// The number of fields of the record type.
    pub fn field_count(&self) -> (n: usize)
        ensures
            n == self.names().len(),
    {
        self.names.len()
    }

    /// The field's name.
    pub fn name(&self) -> (r: &str)
        ensures
            r@ == self.names()[self.slot()],
            0 <= self.slot() < self.names().len(),
    {
        proof {
            use_type_invariant(self);
        }
        self.names[self.slot].as_str()
    }
}

/// The report for a field that the checked record type does not have.
pub open spec fn missing_field_message(name: Seq<char>) -> Seq<char> {
    "record field `"@ + name + "` does not exist in checked type"@
}

/// The field `name` among the sorted `names` of a checked record type.
pub fn checked_field(names: Vec<String>, name: &str) -> (r: Result<CheckedRecordField, String>)
    requires
        names_increasing(names_of(names@)),
    ensures
        match r {
            Ok(f) => f.names() == names_of(names@) && f.names()[f.slot()] == name@ && 0 <= f.slot()
                < f.names().len(),
            Err(m) => !names_of(names@).contains(name@) && m@ == missing_field_message(name@),
        },
{
    let ghost v = names_of(names@);
    let mut lo: usize = 0;
    let mut hi: usize = names.len();
    while lo < hi
        invariant
            v == names_of(names@),
            names_increasing(v),
            lo <= hi <= v.len(),
            forall|i: int| 0 <= i < lo ==> name_before(#[trigger] v[i], name@),
            forall|i: int| hi <= i < v.len() ==> name_before(name@, #[trigger] v[i]),
        decreases hi - lo,
    {
        let mid = lo + (hi - lo) / 2;
        let c = compare_names(names[mid].as_str(), name);
        proof {
            assert(v[mid as int] == names@[mid as int]@);
        }
        if c == 0 {
            return Ok(CheckedRecordField { names, slot: mid });
        } else if c < 0 {
            proof {
                assert forall|i: int| 0 <= i <= mid implies name_before(#[trigger] v[i], name@) by {
                    if i < mid {
                        lemma_name_order(v[i], v[mid as int], name@);
                    }
                }
            }
            lo = mid + 1;
        } else {
            proof {
                assert forall|i: int| mid <= i < v.len() implies name_before(name@, #[trigger] v[i]) by {
                    if i > mid {
                        lemma_name_order(name@, v[mid as int], v[i]);
                    }
                }
            }
            hi = mid;
        }
    }
    proof {
        assert forall|i: int| 0 <= i < v.len() implies v[i] != name@ by {
            lemma_name_order(name@, name@, name@);
        }
    }
    Err(crate::text::enclose("record field `", name, "` does not exist in checked type"))
}


/// Two increasing name lists with the same members are the same list.
pub proof fn lemma_sorted_unique(a: Seq<Seq<char>>, b: Seq<Seq<char>>)
    requires
        names_increasing(a),
        names_increasing(b),
        a.to_set() == b.to_set(),
    ensures
        a == b,
    decreases a.len() + b.len(),
{
    if a.len() == 0 || b.len() == 0 {
        if a.len() > 0 {
            assert(a.to_set().contains(a[0]));
        }
        if b.len() > 0 {
            assert(b.to_set().contains(b[0]));
        }
        assert(a =~= b);
    } else {
        // the first member of each list is the least member of the common set
        assert(a.to_set().contains(a[0]));
        assert(b.to_set().contains(b[0]));
        let i = choose|i: int| 0 <= i < a.len() && a[i] == b[0];
        let j = choose|j: int| 0 <= j < b.len() && b[j] == a[0];
        lemma_name_order(a[0], a[0], a[0]);
        if i > 0 {
            lemma_name_order(b[0], a[0], b[0]);
            if j > 0 {
                lemma_name_order(a[0], b[0], a[0]);
            }
        }
        assert(a[0] == b[0]);
        let x = a[0];
        let a1 = a.drop_first();
        let b1 = b.drop_first();
        assert forall|y: Seq<char>| a1.to_set().contains(y) <==> b1.to_set().contains(y) by {
            if a1.contains(y) {
                let k = choose|k: int| 0 <= k < a1.len() && a1[k] == y;
                assert(a[k + 1] == y);
                assert(a.to_set().contains(y));
                let k2 = choose|k2: int| 0 <= k2 < b.len() && b[k2] == y;
                lemma_name_order(x, y, x);
                if k2 == 0 {
                    assert(name_before(a[0], a[k + 1]));
                }
                assert(b1[k2 - 1] == y);
            }
            if b1.contains(y) {
                let k = choose|k: int| 0 <= k < b1.len() && b1[k] == y;
                assert(b[k + 1] == y);
                assert(b.to_set().contains(y));
                let k2 = choose|k2: int| 0 <= k2 < a.len() && a[k2] == y;
                lemma_name_order(x, y, x);
                if k2 == 0 {
                    assert(name_before(b[0], b[k + 1]));
                }
                assert(a1[k2 - 1] == y);
            }
        }
        assert(a1.to_set() =~= b1.to_set());
        lemma_sorted_unique(a1, b1);
        assert(a =~= seq![x] + a1);
        assert(b =~= seq![x] + b1);
    }
}

/// The increasing list of `names`.
pub open spec fn sorted_names(names: Seq<Seq<char>>) -> Seq<Seq<char>> {
    choose|v: Seq<Seq<char>>| sorted_names_of(v, names)
}

/// What looking up the record shape of `ty` gives: its sorted field names, `None` for a
/// type that is no record, or the report of a fault.
pub open spec fn shape(store: Seq<Type>, ty: TypeId) -> Result<Option<Seq<Seq<char>>>, Seq<char>> {
    if !walk_ok(store, ty.0 as int) {
        Err(
            if walk_missing(store, ty.0 as int) {
                "record layout references a missing checked type"@
            } else {
                "cyclic nominal representation in checked record layout"@
            },
        )
    } else {
        match declared_names(store[walk_end(store, ty.0 as int)]) {
            Some(d) => if distinct_names(d) {
                Ok(Some(sorted_names(d)))
            } else {
                Err("checked record type has duplicate field names"@)
            },
            None => Ok(None),
        }
    }
}

/// The record shape of `ty`, as `shape` describes it.
pub fn shape_of(store: &Vec<Type>, ty: TypeId) -> (r: Result<Option<Vec<String>>, String>)
    ensures
        match r {
            Ok(Some(v)) => shape(store@, ty) == Ok::<_, Seq<char>>(Some(names_of(v@))) && names_increasing(names_of(v@)),
            Ok(None) => shape(store@, ty) == Ok::<Option<Seq<Seq<char>>>, Seq<char>>(None),
            Err(m) => shape(store@, ty) == Err::<Option<Seq<Seq<char>>>, _>(m@),
        },
{
    let r = record_shape(store, ty);
    proof {
        if r is Ok && r->Ok_0 is Some {
            let v = r->Ok_0->Some_0;
            let d = declared_names(store@[walk_end(store@, ty.0 as int)])->0;
            assert(sorted_names_of(names_of(v@), d));
            lemma_sorted_unique(names_of(v@), sorted_names(d));
        }
    }
    r
}


/// The cached shapes agree with `shape` on `store`.
pub open spec fn cache_fits(cache: Map<u32, Option<Vec<String>>>, store: Seq<Type>) -> bool {
    forall|k: u32|
        #[trigger] cache.contains_key(k) ==> match cache[k] {
            Some(v) => shape(store, TypeId(k)) == Ok::<_, Seq<char>>(Some(names_of(v@)))
                && names_increasing(names_of(v@)),
            None => shape(store, TypeId(k)) == Ok::<Option<Seq<Seq<char>>>, Seq<char>>(None),
        }
}

/// The record shapes of checked types, each looked up once. Faults are not kept.
pub struct RecordShapes {
    cache: HashMap<u32, Option<Vec<String>>>,
}

impl RecordShapes {
    /// The cache agrees with `shape` on `store`.
    pub closed spec fn fits(&self, store: Seq<Type>) -> bool {
        cache_fits(self.cache@, store)
    }

    /// An empty cache, which fits every type store.
    pub fn new() -> (r: Self)
        ensures
            forall|store: Seq<Type>| r.fits(store),
    {
        let r = RecordShapes { cache: HashMap::new() };
        proof {
            assert forall|store: Seq<Type>| r.fits(store) by {
                assert(r.cache@ =~= Map::<u32, Option<Vec<String>>>::empty());
            }
        }
        r
    }

    /// The record shape of `ty`, from the cache when it was looked up before.
    pub fn get(&mut self, store: &Vec<Type>, ty: TypeId) -> (r: Result<Option<Vec<String>>, String>)
        requires
            old(self).fits(store@),
        ensures
            final(self).fits(store@),
            match r {
                Ok(Some(v)) => shape(store@, ty) == Ok::<_, Seq<char>>(Some(names_of(v@)))
                    && names_increasing(names_of(v@)),
                Ok(None) => shape(store@, ty) == Ok::<Option<Seq<Seq<char>>>, Seq<char>>(None),
                Err(m) => shape(store@, ty) == Err::<Option<Seq<Seq<char>>>, _>(m@),
            },
    {
        match self.cache.get(&ty.0) {
            Some(found) => {
                proof {
                    assert(self.cache@.contains_key(ty.0));
                    assert(TypeId(ty.0) == ty);
                }
                return Ok(
                    match found {
                        Some(v) => Some(copy_names(v)),
                        None => None,
                    },
                );
            },
            None => {},
        }
        let result = shape_of(store, ty);
        match &result {
            Ok(found) => {
                let kept = match found {
                    Some(v) => Some(copy_names(v)),
                    None => None,
                };
                let ghost before = self.cache@;
                self.cache.insert(ty.0, kept);
                proof {
                    assert forall|k: u32| #[trigger] self.cache@.contains_key(k) implies match self.cache@[k] {
                        Some(v) => shape(store@, TypeId(k)) == Ok::<_, Seq<char>>(Some(names_of(v@)))
                            && names_increasing(names_of(v@)),
                        None => shape(store@, TypeId(k)) == Ok::<Option<Seq<Seq<char>>>, Seq<char>>(None),
                    } by {
                        if k == ty.0 {
                            assert(TypeId(k) == ty);
                        } else {
                            assert(before.contains_key(k));
                        }
                    }
                }
            },
            Err(_) => {},
        }
        result
    }
}

/// A checked field: the sorted field names of a record type and the slot of one of them.
pub struct FieldSpec {
    pub names: Seq<Seq<char>>,
    pub slot: int,
}

impl View for CheckedRecordField {
    type V = FieldSpec;

    open spec fn view(&self) -> FieldSpec {
        FieldSpec { names: self.names(), slot: self.slot() }
    }
}

/// The field `name` among the sorted `names`, or the report that there is none.
pub open spec fn field_in(names: Seq<Seq<char>>, name: Seq<char>) -> Result<FieldSpec, Seq<char>> {
    if names.contains(name) {
        Ok(FieldSpec { names, slot: choose|i: int| 0 <= i < names.len() && names[i] == name })
    } else {
        Err(missing_field_message(name))
    }
}

/// In an increasing list a name has one position.
proof fn lemma_slot_unique(names: Seq<Seq<char>>, i: int, j: int)
    requires
        names_increasing(names),
        0 <= i < names.len(),
        0 <= j < names.len(),
        names[i] == names[j],
    ensures
        i == j,
{
    lemma_name_order(names[i], names[i], names[i]);
    if i < j {
        assert(name_before(names[i], names[j]));
    } else if j < i {
        assert(name_before(names[j], names[i]));
    }
}

/// `checked_field`, described by `field_in`.
fn field_at(names: Vec<String>, name: &str) -> (r: Result<CheckedRecordField, String>)
    requires
        names_increasing(names_of(names@)),
    ensures
        match field_in(names_of(names@), name@) {
            Ok(f) => r matches Ok(c) && c@ == f,
            Err(m) => r matches Err(e) && e@ == m,
        },
{
    let ghost v = names_of(names@);
    let r = checked_field(names, name);
    proof {
        if r is Ok {
            let c = r->Ok_0;
            assert(v.contains(name@)) by {
                assert(v[c.slot()] == name@);
            }
            let i = choose|i: int| 0 <= i < v.len() && v[i] == name@;
            lemma_slot_unique(v, i, c.slot());
        }
    }
    r
}

/// The type the checker gave to expression `e`.
pub open spec fn expr_type(p: CheckedProject, e: int) -> Option<TypeId> {
    if 0 <= e < p.types.expr_types@.len() {
        p.types.expr_types@[e]
    } else {
        None
    }
}

/// The type the checker gave to pattern `q`.
pub open spec fn pattern_type(p: CheckedProject, q: int) -> Option<TypeId> {
    if 0 <= q < p.types.pattern_types@.len() {
        p.types.pattern_types@[q]
    } else {
        None
    }
}

/// The field projections the checker recorded for expression `e`.
pub open spec fn projections(p: CheckedProject, e: int) -> Option<Seq<FieldProjection>> {
    if 0 <= e < p.types.field_projections@.len() {
        match p.types.field_projections@[e] {
            Some(v) => Some(v@),
            None => None,
        }
    } else {
        None
    }
}

/// The type of a value symbol: a parameter, local, value, field or top-level `let`.
pub open spec fn value_type(p: CheckedProject, x: SymbolId) -> Option<TypeId> {
    if x.0 < p.types.symbol_types@.len() {
        match p.types.symbol_types@[x.0 as int] {
            Some(SymbolTypeFact::Param { ty }) => Some(ty),
            Some(SymbolTypeFact::Local { ty }) => Some(ty),
            Some(SymbolTypeFact::Value { ty }) => Some(ty),
            Some(SymbolTypeFact::Field { ty }) => Some(ty),
            Some(SymbolTypeFact::TopLevelLet { ty }) => Some(ty),
            _ => None,
        }
    } else {
        None
    }
}

/// One step of a value path: the checked field it reads, if the receiver is a record
/// type, and the type it yields.
pub struct PathStep {
    pub field: Option<FieldSpec>,
    pub output: TypeId,
}

/// What planning makes of one expression.
pub enum ExprPlan {
    Skip,
    Construct(Seq<Seq<char>>),
    Field(FieldSpec),
    Path(SymbolId, Seq<Seq<char>>, Seq<PathStep>),
    Fail(Seq<char>),
}

/// The plan for a record literal of type `ty` with source field names `source`.
pub open spec fn construct_plan(store: Seq<Type>, ty: TypeId, source: Seq<Seq<char>>) -> ExprPlan {
    match shape(store, ty) {
        Err(m) => ExprPlan::Fail(m),
        Ok(None) => ExprPlan::Skip,
        Ok(Some(sorted)) => if distinct_names(source) && source.to_set() == sorted.to_set() {
            ExprPlan::Construct(source)
        } else {
            ExprPlan::Fail("record constructor fields differ from checked type"@)
        },
    }
}

/// The plan for reading field `field` of an expression of type `ty`, at expression `e`.
pub open spec fn field_plan(p: CheckedProject, e: int, ty: TypeId, field: Seq<char>) -> ExprPlan {
    match shape(p.type_store@, ty) {
        Err(m) => ExprPlan::Fail(m),
        Ok(None) => ExprPlan::Skip,
        Ok(Some(sorted)) => match projections(p, e) {
            None => ExprPlan::Fail("record field has no checked projection fact"@),
            Some(pr) => if pr.len() != 1 || pr[0].field@ != field || pr[0].receiver != ty {
                ExprPlan::Fail("record field `"@ + field + "` differs from checked projection fact"@)
            } else {
                match field_in(sorted, field) {
                    Ok(f) => ExprPlan::Field(f),
                    Err(m) => ExprPlan::Fail(m),
                }
            },
        },
    }
}

/// The steps of a value path over the first `k` of its field names, starting from type
/// `start`.
pub open spec fn path_steps(
    store: Seq<Type>,
    names: Seq<Seq<char>>,
    pr: Seq<FieldProjection>,
    start: TypeId,
    k: nat,
) -> Result<Seq<PathStep>, Seq<char>>
    decreases k,
{
    if k == 0 {
        Ok(Seq::empty())
    } else {
        match path_steps(store, names, pr, start, (k - 1) as nat) {
            Err(m) => Err(m),
            Ok(prev) => {
                let current = if k == 1 {
                    start
                } else {
                    prev.last().output
                };
                let step = pr[k - 1];
                let name = names[k - 1];
                if step.receiver != current || step.field@ != name {
                    Err("value path field `"@ + name + "` differs from checked projection facts"@)
                } else {
                    match shape(store, step.receiver) {
                        Err(m) => Err(m),
                        Ok(found) => {
                            let field = match found {
                                None => Ok(None),
                                Some(sorted) => match field_in(sorted, name) {
                                    Ok(f) => Ok(Some(f)),
                                    Err(m) => Err(m),
                                },
                            };
                            match field {
                                Err(m) => Err(m),
                                Ok(f) => if step.output.0 < store.len() {
                                    Ok(prev.push(PathStep { field: f, output: step.output }))
                                } else {
                                    Err("checked field projection output type is missing"@)
                                },
                            }
                        },
                    }
                }
            },
        }
    }
}

/// The plan for expression `e`.
#[verifier::opaque]
pub open spec fn expr_plan(p: CheckedProject, e: int) -> ExprPlan {
    let store = p.type_store@;
    match p.hir.exprs@[e] {
        HirExpr::Record(record) => match expr_type(p, e) {
            Some(ty) => construct_plan(store, ty, field_init_names(record.fields@)),
            None => ExprPlan::Skip,
        },
        HirExpr::Field { base, field } => match expr_type(p, base.0 as int) {
            Some(ty) => field_plan(p, e, ty, field@),
            None => ExprPlan::Skip,
        },
        HirExpr::Path(path) => match path.resolution {
            ResolveResult::PartiallyResolved(partial) => if partial.reason
                != PartialResolutionReason::MemberRequiresTypeChecking {
                ExprPlan::Skip
            } else {
                match partial.resolved_prefix {
                    None => ExprPlan::Skip,
                    Some(prefix) => match value_type(p, prefix) {
                        None => ExprPlan::Skip,
                        Some(ty) => if expr_type(p, e) is None {
                            ExprPlan::Skip
                        } else {
                            match projections(p, e) {
                                None => ExprPlan::Fail(
                                    "value path has no checked field projection facts"@,
                                ),
                                Some(pr) => {
                                    let names = names_of(partial.remaining@);
                                    if pr.len() != names.len() {
                                        ExprPlan::Fail(
                                            "value path length differs from checked projection facts"@,
                                        )
                                    } else {
                                        match path_steps(store, names, pr, ty, names.len()) {
                                            Err(m) => ExprPlan::Fail(m),
                                            Ok(steps) => ExprPlan::Path(prefix, names, steps),
                                        }
                                    }
                                },
                            }
                        },
                    },
                }
            },
            _ => ExprPlan::Skip,
        },
        _ => ExprPlan::Skip,
    }
}


/// Two name lists are equal.
fn same_names(a: &[String], b: &[String]) -> (r: bool)
    ensures
        r == (names_of(a@) == names_of(b@)),
{
    if a.len() != b.len() {
        proof {
            assert(names_of(a@).len() != names_of(b@).len());
        }
        return false;
    }
    let n = a.len();
    for i in 0..n
        invariant
            n == a@.len(),
            n == b@.len(),
            forall|k: int| 0 <= k < i ==> a@[k]@ == b@[k]@,
    {
        if a[i] != b[i] {
            proof {
                assert(names_of(a@)[i as int] != names_of(b@)[i as int]);
            }
            return false;
        }
    }
    proof {
        assert(names_of(a@) =~= names_of(b@));
    }
    true
}

/// The layout of a record literal of type `ty` whose fields are `fields`.
fn plan_construct(store: &Vec<Type>, shapes: &mut RecordShapes, ty: TypeId, fields: &Vec<HirFieldInit>) -> (r: Result<
    Option<Vec<String>>,
    String,
>)
    requires
        old(shapes).fits(store@),
    ensures
        final(shapes).fits(store@),
        match construct_plan(store@, ty, field_init_names(fields@)) {
            ExprPlan::Skip => r matches Ok(None),
            ExprPlan::Construct(src) => r matches Ok(Some(v)) && names_of(v@) == src,
            ExprPlan::Fail(m) => r matches Err(e) && e@ == m,
            _ => false,
        },
{
    let sorted = match shapes.get(store, ty) {
        Err(m) => {
            return Err(m);
        },
        Ok(None) => {
            return Ok(None);
        },
        Ok(Some(sorted)) => sorted,
    };
    let source = field_init_names_of(fields);
    let ghost src = names_of(source@);
    let ghost want = names_of(sorted@);
    proof {
        assert(src == field_init_names(fields@));
    }
    match sorted_distinct(&source) {
        None => Err("record constructor fields differ from checked type".to_owned()),
        Some(mine) => {
            if same_names(mine.as_slice(), sorted.as_slice()) {
                proof {
                    assert(src.to_set() == want.to_set());
                }
                Ok(Some(source))
            } else {
                proof {
                    if src.to_set() == want.to_set() {
                        lemma_sorted_unique(names_of(mine@), want);
                    }
                }
                Err("record constructor fields differ from checked type".to_owned())
            }
        },
    }
}

/// The projections recorded for expression `e`.
fn projections_at(project: &CheckedProject, e: usize) -> (r: Option<&Vec<FieldProjection>>)
    ensures
        match projections(*project, e as int) {
            Some(v) => r matches Some(w) && w@ == v,
            None => r is None,
        },
{
    if e < project.types.field_projections.len() {
        match &project.types.field_projections[e] {
            Some(v) => Some(v),
            None => None,
        }
    } else {
        None
    }
}

/// The type recorded for expression `e`.
fn expr_type_at(project: &CheckedProject, e: usize) -> (r: Option<TypeId>)
    ensures
        r == expr_type(*project, e as int),
{
    if e < project.types.expr_types.len() {
        project.types.expr_types[e]
    } else {
        None
    }
}

/// The layout of a read of field `field` from a value of type `ty`, at expression `e`.
fn plan_field(
    project: &CheckedProject,
    shapes: &mut RecordShapes,
    e: usize,
    ty: TypeId,
    field: &String,
) -> (r: Result<Option<CheckedRecordField>, String>)
    requires
        old(shapes).fits(project.type_store@),
    ensures
        final(shapes).fits(project.type_store@),
        match field_plan(*project, e as int, ty, field@) {
            ExprPlan::Skip => r matches Ok(None),
            ExprPlan::Field(f) => r matches Ok(Some(c)) && c@ == f,
            ExprPlan::Fail(m) => r matches Err(x) && x@ == m,
            _ => false,
        },
{
    let sorted = match shapes.get(&project.type_store, ty) {
        Err(m) => {
            return Err(m);
        },
        Ok(None) => {
            return Ok(None);
        },
        Ok(Some(sorted)) => sorted,
    };
    let pr = match projections_at(project, e) {
        None => {
            return Err("record field has no checked projection fact".to_owned());
        },
        Some(pr) => pr,
    };
    if pr.len() != 1 || pr[0].field != *field || pr[0].receiver.0 != ty.0 {
        return Err(crate::text::enclose(
            "record field `",
            field.as_str(),
            "` differs from checked projection fact",
        ));
    }
    match field_at(sorted, field.as_str()) {
        Ok(f) => Ok(Some(f)),
        Err(m) => Err(m),
    }
}


/// A value path that fails part way fails as a whole, with the same report.
proof fn lemma_steps_fail(
    store: Seq<Type>,
    names: Seq<Seq<char>>,
    pr: Seq<FieldProjection>,
    start: TypeId,
    k: nat,
    j: nat,
)
    requires
        path_steps(store, names, pr, start, k) is Err,
        k <= j,
    ensures
        path_steps(store, names, pr, start, j) == path_steps(store, names, pr, start, k),
    decreases j,
{
    if k < j {
        lemma_steps_fail(store, names, pr, start, k, (j - 1) as nat);
    }
}

/// One step of a value path.
pub struct PathField {
    pub field: Option<CheckedRecordField>,
    pub output: TypeId,
}

impl View for PathField {
    type V = PathStep;

    open spec fn view(&self) -> PathStep {
        PathStep {
            field: match self.field {
                Some(f) => Some(f@),
                None => None,
            },
            output: self.output,
        }
    }
}

/// The steps of a list of path fields.
pub open spec fn steps_of(v: Seq<PathField>) -> Seq<PathStep> {
    v.map_values(|f: PathField| f@)
}

/// The steps of a value path whose field names are `remaining` and whose checked
/// projections are `pr`, starting from type `ty`.
fn plan_path(
    store: &Vec<Type>,
    shapes: &mut RecordShapes,
    ty: TypeId,
    remaining: &Vec<String>,
    pr: &Vec<FieldProjection>,
) -> (r: Result<Vec<PathField>, String>)
    requires
        pr@.len() == remaining@.len(),
        old(shapes).fits(store@),
    ensures
        final(shapes).fits(store@),
        match path_steps(store@, names_of(remaining@), pr@, ty, remaining@.len()) {
            Ok(steps) => r matches Ok(v) && steps_of(v@) == steps,
            Err(m) => r matches Err(x) && x@ == m,
        },
{
    let ghost names = names_of(remaining@);
    let n = remaining.len();
    let mut fields: Vec<PathField> = Vec::new();
    let mut current = ty;
    proof {
        assert(steps_of(fields@) =~= Seq::<PathStep>::empty());
    }
    for k in 0..n
        invariant
            n == remaining@.len(),
            n == pr@.len(),
            names == names_of(remaining@),
            path_steps(store@, names, pr@, ty, k as nat) == Ok::<_, Seq<char>>(steps_of(fields@)),
            current == if k == 0 {
                ty
            } else {
                steps_of(fields@).last().output
            },
            fields@.len() == k,
            shapes.fits(store@),
    {
        let name = &remaining[k];
        let step = &pr[k];
        proof {
            assert(names[k as int] == name@);
        }
        if step.receiver.0 != current.0 || step.field != *name {
            proof {
                lemma_steps_fail(store@, names, pr@, ty, (k + 1) as nat, n as nat);
            }
            return Err(crate::text::enclose(
                "value path field `",
                name.as_str(),
                "` differs from checked projection facts",
            ));
        }
        let field = match shapes.get(store, step.receiver) {
            Err(m) => {
                proof {
                    lemma_steps_fail(store@, names, pr@, ty, (k + 1) as nat, n as nat);
                }
                return Err(m);
            },
            Ok(None) => None,
            Ok(Some(sorted)) => match field_at(sorted, name.as_str()) {
                Ok(f) => Some(f),
                Err(m) => {
                    proof {
                        lemma_steps_fail(store@, names, pr@, ty, (k + 1) as nat, n as nat);
                    }
                    return Err(m);
                },
            },
        };
        current = step.output;
        if current.0 as usize >= store.len() {
            proof {
                lemma_steps_fail(store@, names, pr@, ty, (k + 1) as nat, n as nat);
            }
            return Err("checked field projection output type is missing".to_owned());
        }
        let ghost before = fields@;
        fields.push(PathField { field, output: current });
        proof {
            assert(steps_of(fields@) =~= steps_of(before).push(fields@.last()@));
        }
    }
    Ok(fields)
}


/// A copy of a list of names.
fn copy_names(v: &Vec<String>) -> (r: Vec<String>)
    ensures
        names_of(r@) == names_of(v@),
{
    let mut r: Vec<String> = Vec::new();
    for i in 0..v.len()
        invariant
            r@.len() == i,
            i <= v@.len(),
            forall|k: int| 0 <= k < i ==> r@[k]@ == v@[k]@,
    {
        r.push(v[i].clone());
    }
    proof {
        assert(names_of(r@) =~= names_of(v@));
    }
    r
}

/// The type of value symbol `x`.
fn value_type_of(project: &CheckedProject, x: SymbolId) -> (r: Option<TypeId>)
    ensures
        r == value_type(*project, x),
{
    let i = x.0 as usize;
    if i < project.types.symbol_types.len() {
        match project.types.symbol_types[i] {
            Some(SymbolTypeFact::Param { ty }) => Some(ty),
            Some(SymbolTypeFact::Local { ty }) => Some(ty),
            Some(SymbolTypeFact::Value { ty }) => Some(ty),
            Some(SymbolTypeFact::Field { ty }) => Some(ty),
            Some(SymbolTypeFact::TopLevelLet { ty }) => Some(ty),
            _ => None,
        }
    } else {
        None
    }
}

/// What planning made of one expression.
enum ExprLayout {
    Skip,
    Construct(Vec<String>),
    Field(CheckedRecordField),
    Path(SymbolId, Vec<String>, Vec<PathField>),
}

/// `r` is what `plan` describes.
spec fn expr_layout_is(r: Result<ExprLayout, String>, plan: ExprPlan) -> bool {
    match plan {
        ExprPlan::Skip => r matches Ok(ExprLayout::Skip),
        ExprPlan::Construct(src) => r matches Ok(ExprLayout::Construct(v)) && names_of(v@) == src,
        ExprPlan::Field(f) => r matches Ok(ExprLayout::Field(c)) && c@ == f,
        ExprPlan::Path(x, names, steps) => r matches Ok(ExprLayout::Path(y, rem, fs)) && y == x
            && names_of(rem@) == names && steps_of(fs@) == steps,
        ExprPlan::Fail(m) => r matches Err(x) && x@ == m,
    }
}

/// Plans expression `e`.
fn plan_expr(project: &CheckedProject, shapes: &mut RecordShapes, e: usize) -> (r: Result<ExprLayout, String>)
    requires
        e < project.hir.exprs@.len(),
        old(shapes).fits(project.type_store@),
    ensures
        final(shapes).fits(project.type_store@),
        expr_layout_is(r, expr_plan(*project, e as int)),
{
    reveal(expr_plan);
    let store = &project.type_store;
    match &project.hir.exprs[e] {
        HirExpr::Record(record) => match expr_type_at(project, e) {
            Some(ty) => match plan_construct(store, shapes, ty, &record.fields) {
                Ok(Some(v)) => Ok(ExprLayout::Construct(v)),
                Ok(None) => Ok(ExprLayout::Skip),
                Err(m) => Err(m),
            },
            None => Ok(ExprLayout::Skip),
        },
        HirExpr::Field { base, field } => match expr_type_at(project, base.0 as usize) {
            Some(ty) => match plan_field(project, shapes, e, ty, field) {
                Ok(Some(f)) => Ok(ExprLayout::Field(f)),
                Ok(None) => Ok(ExprLayout::Skip),
                Err(m) => Err(m),
            },
            None => Ok(ExprLayout::Skip),
        },
        HirExpr::Path(path) => match &path.resolution {
            ResolveResult::PartiallyResolved(partial) => {
                match partial.reason {
                    PartialResolutionReason::MemberRequiresTypeChecking => {},
                    _ => {
                        return Ok(ExprLayout::Skip);
                    },
                }
                let prefix = match partial.resolved_prefix {
                    Some(prefix) => prefix,
                    None => {
                        return Ok(ExprLayout::Skip);
                    },
                };
                let ty = match value_type_of(project, prefix) {
                    Some(ty) => ty,
                    None => {
                        return Ok(ExprLayout::Skip);
                    },
                };
                if expr_type_at(project, e).is_none() {
                    return Ok(ExprLayout::Skip);
                }
                let pr = match projections_at(project, e) {
                    Some(pr) => pr,
                    None => {
                        return Err("value path has no checked field projection facts".to_owned());
                    },
                };
                if pr.len() != partial.remaining.len() {
                    return Err("value path length differs from checked projection facts".to_owned());
                }
                match plan_path(store, shapes, ty, &partial.remaining, pr) {
                    Ok(fields) => Ok(ExprLayout::Path(prefix, copy_names(&partial.remaining), fields)),
                    Err(m) => Err(m),
                }
            },
            _ => Ok(ExprLayout::Skip),
        },
        _ => Ok(ExprLayout::Skip),
    }
}


/// A field of a record pattern: the checked field it binds and the pattern it binds to.
pub struct RecordPatternField {
    pub field: CheckedRecordField,
    pub pat: Option<HirPatId>,
}

impl View for RecordPatternField {
    type V = (FieldSpec, Option<HirPatId>);

    open spec fn view(&self) -> (FieldSpec, Option<HirPatId>) {
        (self.field@, self.pat)
    }
}

/// The bindings of a list of pattern fields.
pub open spec fn bindings_of(v: Seq<RecordPatternField>) -> Seq<(FieldSpec, Option<HirPatId>)> {
    v.map_values(|f: RecordPatternField| f@)
}

/// The report for a record pattern that names a field twice.
pub open spec fn duplicate_pattern_message(name: Seq<char>) -> Seq<char> {
    "duplicate checked record pattern field `"@ + name + "`"@
}

/// The bindings of the first `k` fields of a record pattern against the sorted field
/// names of its type.
pub open spec fn pattern_bindings(
    sorted: Seq<Seq<char>>,
    fields: Seq<HirRecordPatField>,
    k: nat,
) -> Result<Seq<(FieldSpec, Option<HirPatId>)>, Seq<char>>
    decreases k,
{
    if k == 0 {
        Ok(Seq::empty())
    } else {
        match pattern_bindings(sorted, fields, (k - 1) as nat) {
            Err(m) => Err(m),
            Ok(prev) => {
                let f = fields[k - 1];
                if exists|j: int| 0 <= j < k - 1 && #[trigger] fields[j].name@ == f.name@ {
                    Err(duplicate_pattern_message(f.name@))
                } else {
                    match field_in(sorted, f.name@) {
                        Err(m) => Err(m),
                        Ok(fs) => Ok(prev.push((fs, f.pat))),
                    }
                }
            },
        }
    }
}

/// What planning makes of one pattern.
pub enum PatPlan {
    Skip,
    Fields(Seq<(FieldSpec, Option<HirPatId>)>),
    Fail(Seq<char>),
}

/// The plan for pattern `q`.
#[verifier::opaque]
pub open spec fn pattern_plan(p: CheckedProject, q: int) -> PatPlan {
    match p.hir.pats@[q] {
        HirPat::Record { fields, .. } => match pattern_type(p, q) {
            None => PatPlan::Skip,
            Some(ty) => match shape(p.type_store@, ty) {
                Err(m) => PatPlan::Fail(m),
                Ok(None) => PatPlan::Skip,
                Ok(Some(sorted)) => match pattern_bindings(sorted, fields@, fields@.len()) {
                    Err(m) => PatPlan::Fail(m),
                    Ok(v) => PatPlan::Fields(v),
                },
            },
        },
        _ => PatPlan::Skip,
    }
}

proof fn lemma_bindings_fail(
    sorted: Seq<Seq<char>>,
    fields: Seq<HirRecordPatField>,
    k: nat,
    j: nat,
)
    requires
        pattern_bindings(sorted, fields, k) is Err,
        k <= j,
    ensures
        pattern_bindings(sorted, fields, j) == pattern_bindings(sorted, fields, k),
    decreases j,
{
    if k < j {
        lemma_bindings_fail(sorted, fields, k, (j - 1) as nat);
    }
}

/// Plans pattern `q`: `None` when the pattern binds no checked record fields.
fn plan_pattern(project: &CheckedProject, shapes: &mut RecordShapes, q: usize) -> (r: Result<
    Option<Vec<RecordPatternField>>,
    String,
>)
    requires
        q < project.hir.pats@.len(),
        old(shapes).fits(project.type_store@),
    ensures
        final(shapes).fits(project.type_store@),
        match pattern_plan(*project, q as int) {
            PatPlan::Skip => r matches Ok(None),
            PatPlan::Fields(v) => r matches Ok(Some(w)) && bindings_of(w@) == v,
            PatPlan::Fail(m) => r matches Err(x) && x@ == m,
        },
{
    reveal(pattern_plan);
    let fields = match &project.hir.pats[q] {
        HirPat::Record { fields, .. } => fields,
        _ => {
            return Ok(None);
        },
    };
    let ty = if q < project.types.pattern_types.len() {
        match project.types.pattern_types[q] {
            Some(ty) => ty,
            None => {
                return Ok(None);
            },
        }
    } else {
        return Ok(None);
    };
    let sorted = match shapes.get(&project.type_store, ty) {
        Err(m) => {
            return Err(m);
        },
        Ok(None) => {
            return Ok(None);
        },
        Ok(Some(sorted)) => sorted,
    };
    let ghost sv = names_of(sorted@);
    let n = fields.len();
    let ghost whole = match pattern_bindings(sv, fields@, n as nat) {
        Err(m) => PatPlan::Fail(m),
        Ok(v) => PatPlan::Fields(v),
    };
    let mut layout: Vec<RecordPatternField> = Vec::new();
    proof {
        assert(bindings_of(layout@) =~= Seq::<(FieldSpec, Option<HirPatId>)>::empty());
        assert(pattern_plan(*project, q as int) == whole);
    }
    for k in 0..n
        invariant
            shapes.fits(project.type_store@),
            pattern_plan(*project, q as int) == whole,
            whole == match pattern_bindings(sv, fields@, n as nat) {
                Err(m) => PatPlan::Fail(m),
                Ok(v) => PatPlan::Fields(v),
            },
            n == fields@.len(),
            sv == names_of(sorted@),
            names_increasing(sv),
            pattern_bindings(sv, fields@, k as nat) == Ok::<_, Seq<char>>(bindings_of(layout@)),
    {
        let field = &fields[k];
        let mut j: usize = 0;
        while j < k
            invariant
                shapes.fits(project.type_store@),
                pattern_plan(*project, q as int) == whole,
                whole == match pattern_bindings(sv, fields@, n as nat) {
                    Err(m) => PatPlan::Fail(m),
                    Ok(v) => PatPlan::Fields(v),
                },
                pattern_bindings(sv, fields@, k as nat) == Ok::<_, Seq<char>>(bindings_of(layout@)),
                j <= k < n,
                n == fields@.len(),
                *field == fields@[k as int],
                forall|i: int| 0 <= i < j ==> fields@[i].name@ != field.name@,
            decreases k - j,
        {
            if fields[j].name == field.name {
                proof {
                    assert(fields@[j as int].name@ == fields@[k as int].name@);
                    lemma_bindings_fail(sv, fields@, (k + 1) as nat, n as nat);
                }
                return Err(crate::text::enclose(
                    "duplicate checked record pattern field `",
                    field.name.as_str(),
                    "`",
                ));
            }
            j = j + 1;
        }
        proof {
            assert(!exists|i: int| 0 <= i < k && #[trigger] fields@[i].name@ == fields@[k as int].name@);
        }
        let checked = match field_at(copy_names(&sorted), field.name.as_str()) {
            Ok(f) => f,
            Err(m) => {
                proof {
                    lemma_bindings_fail(sv, fields@, (k + 1) as nat, n as nat);
                }
                return Err(m);
            },
        };
        let ghost before = layout@;
        layout.push(RecordPatternField { field: checked, pat: field.pat });
        proof {
            assert(bindings_of(layout@) =~= bindings_of(before).push(layout@.last()@));
        }
    }
    Ok(Some(layout))
}


/// The checked steps of a value path, by its prefix symbol and field names.
struct PathEntry {
    prefix: SymbolId,
    remaining: Vec<String>,
    fields: Vec<PathField>,
    /// The expression whose plan the entry records.
    origin: Ghost<int>,
}

/// The key of a path entry.
spec fn entry_key(entry: PathEntry) -> (SymbolId, Seq<Seq<char>>) {
    (entry.prefix, names_of(entry.remaining@))
}

/// Two checked fields are the same field of the same names.
fn same_field(a: &CheckedRecordField, b: &CheckedRecordField) -> (r: bool)
    ensures
        r == (a@ == b@),
{
    a.slot == b.slot && same_names(a.names.as_slice(), b.names.as_slice())
}

/// Two lists of path steps are equal.
fn same_steps(a: &Vec<PathField>, b: &Vec<PathField>) -> (r: bool)
    ensures
        r == (steps_of(a@) == steps_of(b@)),
{
    if a.len() != b.len() {
        proof {
            assert(steps_of(a@).len() != steps_of(b@).len());
        }
        return false;
    }
    let n = a.len();
    for i in 0..n
        invariant
            n == a@.len(),
            n == b@.len(),
            forall|k: int| 0 <= k < i ==> a@[k]@ == b@[k]@,
    {
        let same = a[i].output.0 == b[i].output.0 && match (&a[i].field, &b[i].field) {
            (Some(x), Some(y)) => same_field(x, y),
            (None, None) => true,
            _ => false,
        };
        if !same {
            proof {
                assert(steps_of(a@)[i as int] != steps_of(b@)[i as int]);
            }
            return false;
        }
    }
    proof {
        assert(steps_of(a@) =~= steps_of(b@));
    }
    true
}

/// Where a checked field is read: at a field expression, or at step `index` of a value
/// path.
pub enum FieldAccessSite<'a> {
    Expr(HirExprId),
    Path { prefix: SymbolId, remaining: &'a [String], index: usize },
}

/// The checked record layouts of a program: record literals, field reads, value paths
/// and record patterns.
pub struct RecordLayoutTable {
    constructions: Vec<Option<Vec<String>>>,
    fields: Vec<Option<CheckedRecordField>>,
    patterns: Vec<Option<Vec<RecordPatternField>>>,
    paths: Vec<PathEntry>,
}

/// The steps of the last entry with key `(x, names)`.
spec fn path_lookup(paths: Seq<PathEntry>, x: SymbolId, names: Seq<Seq<char>>) -> Option<Seq<PathStep>>
    decreases paths.len(),
{
    if paths.len() == 0 {
        None
    } else if entry_key(paths.last()) == (x, names) {
        Some(steps_of(paths.last().fields@))
    } else {
        path_lookup(paths.drop_last(), x, names)
    }
}

proof fn lemma_lookup_push(paths: Seq<PathEntry>, e: PathEntry, x: SymbolId, names: Seq<Seq<char>>)
    ensures
        path_lookup(paths.push(e), x, names) == if entry_key(e) == (x, names) {
            Some(steps_of(e.fields@))
        } else {
            path_lookup(paths, x, names)
        },
{
    assert(paths.push(e).drop_last() =~= paths);
}

/// A looked-up path comes from an entry with its key.
proof fn lemma_lookup_index(paths: Seq<PathEntry>, x: SymbolId, names: Seq<Seq<char>>) -> (j: int)
    requires
        path_lookup(paths, x, names) is Some,
    ensures
        0 <= j < paths.len(),
        entry_key(paths[j]) == (x, names),
        path_lookup(paths, x, names) == Some(steps_of(paths[j].fields@)),
    decreases paths.len(),
{
    if entry_key(paths.last()) == (x, names) {
        paths.len() - 1
    } else {
        let j = lemma_lookup_index(paths.drop_last(), x, names);
        assert(paths.drop_last()[j] == paths[j]);
        j
    }
}

/// In entries with distinct keys, an entry's key finds that entry.
proof fn lemma_lookup_found(paths: Seq<PathEntry>, j: int)
    requires
        keys_distinct(paths),
        0 <= j < paths.len(),
    ensures
        path_lookup(paths, entry_key(paths[j]).0, entry_key(paths[j]).1) == Some(steps_of(paths[j].fields@)),
    decreases paths.len(),
{
    if j < paths.len() - 1 {
        assert(entry_key(paths[j]) != entry_key(paths[paths.len() - 1]));
        assert(paths.drop_last()[j] == paths[j]);
        assert(keys_distinct(paths.drop_last())) by {
            assert forall|a: int, b: int| 0 <= a < b < paths.drop_last().len() implies entry_key(
                #[trigger] paths.drop_last()[a],
            ) != entry_key(#[trigger] paths.drop_last()[b]) by {
                assert(paths.drop_last()[a] == paths[a] && paths.drop_last()[b] == paths[b]);
            }
        }
        lemma_lookup_found(paths.drop_last(), j);
    }
}

/// A key that no entry has finds nothing.
proof fn lemma_lookup_absent(paths: Seq<PathEntry>, x: SymbolId, names: Seq<Seq<char>>)
    requires
        forall|j: int| 0 <= j < paths.len() ==> entry_key(#[trigger] paths[j]) != (x, names),
    ensures
        path_lookup(paths, x, names) is None,
    decreases paths.len(),
{
    if paths.len() > 0 {
        assert(entry_key(paths[paths.len() - 1]) != (x, names));
        assert forall|j: int| 0 <= j < paths.drop_last().len() implies entry_key(
            #[trigger] paths.drop_last()[j],
        ) != (x, names) by {
            assert(paths.drop_last()[j] == paths[j]);
        }
        lemma_lookup_absent(paths.drop_last(), x, names);
    }
}

/// Entries with distinct keys.
spec fn keys_distinct(paths: Seq<PathEntry>) -> bool {
    forall|i: int, j: int| 0 <= i < j < paths.len() ==> entry_key(#[trigger] paths[i]) != entry_key(#[trigger] paths[j])
}

impl RecordLayoutTable {
    #[verifier::type_invariant]
    spec fn inv(self) -> bool {
        keys_distinct(self.paths@)
    }

    /// The source field names of the record literal at `e`.
    pub closed spec fn construction_at(&self, e: HirExprId) -> Option<Seq<Seq<char>>> {
        if e.0 < self.constructions@.len() {
            match self.constructions@[e.0 as int] {
                Some(v) => Some(names_of(v@)),
                None => None,
            }
        } else {
            None
        }
    }

    /// The checked field read by the field expression at `e`.
    pub closed spec fn field_at_expr(&self, e: HirExprId) -> Option<FieldSpec> {
        if e.0 < self.fields@.len() {
            match self.fields@[e.0 as int] {
                Some(f) => Some(f@),
                None => None,
            }
        } else {
            None
        }
    }

    /// The bindings of the record pattern at `q`.
    pub closed spec fn pattern_at(&self, q: HirPatId) -> Option<Seq<(FieldSpec, Option<HirPatId>)>> {
        if q.0 < self.patterns@.len() {
            match self.patterns@[q.0 as int] {
                Some(v) => Some(bindings_of(v@)),
                None => None,
            }
        } else {
            None
        }
    }

    /// The steps of the value path with prefix `x` and field names `names`.
    pub closed spec fn path_at(&self, x: SymbolId, names: Seq<Seq<char>>) -> Option<Seq<PathStep>> {
        path_lookup(self.paths@, x, names)
    }
}


/// The source names a plan constructs, if it constructs.
pub open spec fn constructed(plan: ExprPlan) -> Option<Seq<Seq<char>>> {
    match plan {
        ExprPlan::Construct(src) => Some(src),
        _ => None,
    }
}

/// The field a plan reads, if it reads one.
pub open spec fn field_read(plan: ExprPlan) -> Option<FieldSpec> {
    match plan {
        ExprPlan::Field(f) => Some(f),
        _ => None,
    }
}

/// The bindings a pattern plan makes, if it makes any.
pub open spec fn pattern_made(plan: PatPlan) -> Option<Seq<(FieldSpec, Option<HirPatId>)>> {
    match plan {
        PatPlan::Fields(v) => Some(v),
        _ => None,
    }
}

/// Value paths with the same prefix and names have the same steps.
pub open spec fn paths_agree(p: CheckedProject) -> bool {
    forall|e1: int, e2: int|
        0 <= e1 < p.hir.exprs@.len() && 0 <= e2 < p.hir.exprs@.len() && (#[trigger] expr_plan(p, e1) matches ExprPlan::Path(
            x1,
            n1,
            s1,
        ) && #[trigger] expr_plan(p, e2) matches ExprPlan::Path(x2, n2, s2) && x1 == x2 && n1 == n2)
            ==> expr_plan(p, e1) == expr_plan(p, e2)
}

/// No expression or pattern plan is at fault, and value paths agree.
pub open spec fn records_fit(p: CheckedProject) -> bool {
    &&& forall|e: int| 0 <= e < p.hir.exprs@.len() ==> !(#[trigger] expr_plan(p, e) is Fail)
    &&& forall|q: int| 0 <= q < p.hir.pats@.len() ==> !(#[trigger] pattern_plan(p, q) is Fail)
    &&& paths_agree(p)
}

/// The report for a value path planned twice with different steps.
pub open spec fn conflict_message() -> Seq<char> {
    "value path has conflicting checked field projection facts"@
}

/// Expression `e` plans a value path that an earlier expression plans with other steps.
pub open spec fn path_conflict(p: CheckedProject, e: int) -> bool {
    expr_plan(p, e) matches ExprPlan::Path(x, n, s) && exists|k: int|
        0 <= k < e && (#[trigger] expr_plan(p, k) matches ExprPlan::Path(x2, n2, s2) && x2 == x && n2
            == n && s2 != s)
}

/// Expression `e` plans without fault.
pub open spec fn expr_ok(p: CheckedProject, e: int) -> bool {
    !(expr_plan(p, e) is Fail) && !path_conflict(p, e)
}

/// Expression `e` is at fault, reported with `m`.
pub open spec fn expr_fault(p: CheckedProject, e: int, m: Seq<char>) -> bool {
    ||| expr_plan(p, e) == ExprPlan::Fail(m)
    ||| !(expr_plan(p, e) is Fail) && path_conflict(p, e) && m == conflict_message()
}

/// What is reported when some plan is at fault: the fault of the first expression at
/// fault, or, when every expression plans, that of the first pattern at fault.
pub open spec fn records_error(p: CheckedProject, m: Seq<char>) -> bool {
    let ne = p.hir.exprs@.len();
    if exists|e: int| 0 <= e < ne && !#[trigger] expr_ok(p, e) {
        exists|e: int|
            0 <= e < ne && #[trigger] expr_fault(p, e, m) && forall|k: int|
                0 <= k < e ==> #[trigger] expr_ok(p, k)
    } else {
        exists|q: int|
            0 <= q < p.hir.pats@.len() && #[trigger] pattern_plan(p, q) == PatPlan::Fail(m)
                && forall|k: int| 0 <= k < q ==> !(#[trigger] pattern_plan(p, k) is Fail)
    }
}

/// The value paths planned so far agree with one another.
proof fn lemma_no_conflict_before(p: CheckedProject, paths: Seq<PathEntry>, i: int)
    requires
        paths_from(p, paths, i),
    ensures
        forall|e: int| 0 <= e < i ==> !#[trigger] path_conflict(p, e),
{
    assert forall|e: int| 0 <= e < i implies !#[trigger] path_conflict(p, e) by {
        if path_conflict(p, e) {
            let (x, n, st) = (expr_plan(p, e)->Path_0, expr_plan(p, e)->Path_1, expr_plan(p, e)->Path_2);
            let k = choose|k: int|
                0 <= k < e && (#[trigger] expr_plan(p, k) matches ExprPlan::Path(x2, n2, s2) && x2 == x
                    && n2 == n && s2 != st);
            assert(path_lookup(paths, x, n) == Some(st));
            assert(path_lookup(paths, x, n) == Some(expr_plan(p, k)->Path_2));
        }
    }
}

/// The entry for the value path with prefix `prefix` and names `remaining`.
fn find_path(paths: &Vec<PathEntry>, prefix: SymbolId, remaining: &[String]) -> (r: Option<usize>)
    ensures
        match r {
            Some(j) => j < paths@.len() && entry_key(paths@[j as int]) == (prefix, names_of(remaining@)),
            None => forall|j: int|
                0 <= j < paths@.len() ==> entry_key(#[trigger] paths@[j]) != (prefix, names_of(remaining@)),
        },
{
    for j in 0..paths.len()
        invariant
            forall|k: int|
                0 <= k < j ==> entry_key(#[trigger] paths@[k]) != (prefix, names_of(remaining@)),
    {
        if paths[j].prefix.0 == prefix.0 && same_names(paths[j].remaining.as_slice(), remaining) {
            return Some(j);
        }
    }
    None
}

/// The entries are exactly the value paths planned among the first `i` expressions.
spec fn paths_from(p: CheckedProject, paths: Seq<PathEntry>, i: int) -> bool {
    &&& keys_distinct(paths)
    &&& forall|j: int|
        0 <= j < paths.len() ==> 0 <= (#[trigger] paths[j]).origin@ < i && expr_plan(
            p,
            paths[j].origin@,
        ) == ExprPlan::Path(entry_key(paths[j]).0, entry_key(paths[j]).1, steps_of(paths[j].fields@))
    &&& forall|k: int|
        0 <= k < i ==> (#[trigger] expr_plan(p, k) matches ExprPlan::Path(x, nm, st) ==> path_lookup(
            paths,
            x,
            nm,
        ) == Some(st))
}

/// An expression that plans no value path leaves the entries as they were.
proof fn lemma_paths_pass(p: CheckedProject, paths: Seq<PathEntry>, i: int)
    requires
        paths_from(p, paths, i),
        !(expr_plan(p, i) is Path),
    ensures
        paths_from(p, paths, i + 1),
{
}

/// Adds the value path planned at expression `i`, or reports that it conflicts with an
/// earlier one.
fn record_path(
    paths: &mut Vec<PathEntry>,
    prefix: SymbolId,
    remaining: Vec<String>,
    steps: Vec<PathField>,
    Ghost(p): Ghost<CheckedProject>,
    Ghost(i): Ghost<int>,
) -> (r: Result<(), String>)
    requires
        0 <= i < p.hir.exprs@.len(),
        paths_from(p, old(paths)@, i),
        expr_plan(p, i) == ExprPlan::Path(prefix, names_of(remaining@), steps_of(steps@)),
    ensures
        match r {
            Ok(()) => paths_from(p, final(paths)@, i + 1),
            Err(m) => !(expr_plan(p, i) is Fail) && path_conflict(p, i) && m@ == conflict_message(),
        },
{
    match find_path(paths, prefix, remaining.as_slice()) {
        Some(j) => {
            proof {
                lemma_lookup_found(paths@, j as int);
            }
            if !same_steps(&paths[j].fields, &steps) {
                proof {
                    let k = paths@[j as int].origin@;
                    assert(expr_plan(p, k) != expr_plan(p, i));
                }
                return Err("value path has conflicting checked field projection facts".to_owned());
            }
            Ok(())
        },
        None => {
            let ghost before = paths@;
            proof {
                lemma_lookup_absent(before, prefix, names_of(remaining@));
            }
            paths.push(PathEntry { prefix, remaining, fields: steps, origin: Ghost(i) });
            proof {
                let ps = paths@;
                assert(ps =~= before.push(ps.last()));
                assert forall|a: int, b: int| 0 <= a < b < ps.len() implies entry_key(#[trigger] ps[a])
                    != entry_key(#[trigger] ps[b]) by {
                    if b == before.len() {
                        assert(ps[a] == before[a]);
                    } else {
                        assert(ps[a] == before[a] && ps[b] == before[b]);
                    }
                }
                assert forall|j: int| 0 <= j < ps.len() implies 0 <= (#[trigger] ps[j]).origin@ < i + 1
                    && expr_plan(p, ps[j].origin@) == ExprPlan::Path(
                    entry_key(ps[j]).0,
                    entry_key(ps[j]).1,
                    steps_of(ps[j].fields@),
                ) by {
                    if j < before.len() {
                        assert(ps[j] == before[j]);
                    }
                }
                assert forall|k: int|
                    0 <= k < i + 1 implies (#[trigger] expr_plan(p, k) matches ExprPlan::Path(x, nm, st)
                    ==> path_lookup(ps, x, nm) == Some(st)) by {
                    if let ExprPlan::Path(x, nm, st) = expr_plan(p, k) {
                        lemma_lookup_push(before, ps.last(), x, nm);
                    }
                }
            }
            Ok(())
        },
    }
}

impl RecordLayoutTable {
    /// Plans the record literals, field reads, value paths and record patterns of a
    /// program against the checked record types.
    #[verifier::rlimit(80)]
    pub fn build(project: &CheckedProject) -> (r: Result<Self, String>)
        ensures
            match r {
                Ok(table) => {
                    &&& records_fit(*project)
                    &&& forall|e: HirExprId|
                        #[trigger] table.construction_at(e) == if e.0 < project.hir.exprs@.len() {
                            constructed(expr_plan(*project, e.0 as int))
                        } else {
                            None
                        }
                    &&& forall|e: HirExprId|
                        #[trigger] table.field_at_expr(e) == if e.0 < project.hir.exprs@.len() {
                            field_read(expr_plan(*project, e.0 as int))
                        } else {
                            None
                        }
                    &&& forall|q: HirPatId|
                        #[trigger] table.pattern_at(q) == if q.0 < project.hir.pats@.len() {
                            pattern_made(pattern_plan(*project, q.0 as int))
                        } else {
                            None
                        }
                    &&& forall|e: int|
                        0 <= e < project.hir.exprs@.len() ==> (#[trigger] expr_plan(*project, e) matches ExprPlan::Path(
                            x,
                            n,
                            st,
                        ) ==> table.path_at(x, n) == Some(st))
                    &&& forall|x: SymbolId, n: Seq<Seq<char>>|
                        #[trigger] table.path_at(x, n) matches Some(st) ==> exists|e: int|
                            0 <= e < project.hir.exprs@.len() && #[trigger] expr_plan(*project, e)
                                == ExprPlan::Path(x, n, st)
                },
                Err(m) => records_error(*project, m@),
            },
    {
        let ghost p = *project;
        let mut shapes = RecordShapes::new();
        let mut constructions: Vec<Option<Vec<String>>> = Vec::new();
        let mut fields: Vec<Option<CheckedRecordField>> = Vec::new();
        let mut paths: Vec<PathEntry> = Vec::new();
        let n = project.hir.exprs.len();
        for i in 0..n
            invariant
                p == *project,
                n == p.hir.exprs@.len(),
                shapes.fits(p.type_store@),
                constructions@.len() == i,
                fields@.len() == i,
                forall|k: int|
                    0 <= k < i ==> (match #[trigger] constructions@[k] {
                        Some(v) => Some(names_of(v@)),
                        None => None,
                    }) == constructed(expr_plan(p, k)),
                forall|k: int|
                    0 <= k < i ==> (match #[trigger] fields@[k] {
                        Some(f) => Some(f@),
                        None => None,
                    }) == field_read(expr_plan(p, k)),
                forall|k: int| 0 <= k < i ==> !(#[trigger] expr_plan(p, k) is Fail),
                paths_from(p, paths@, i as int),
        {
            let planned = plan_expr(project, &mut shapes, i);
            match planned {
                Err(m) => {
                    proof {
                        lemma_no_conflict_before(p, paths@, i as int);
                        assert(expr_fault(p, i as int, m@));
                        assert(!expr_ok(p, i as int));
                        assert forall|k: int| 0 <= k < i implies #[trigger] expr_ok(p, k) by {
                            assert(!(expr_plan(p, k) is Fail));
                        }
                    }
                    return Err(m);
                },
                Ok(ExprLayout::Skip) => {
                    proof {
                        lemma_paths_pass(p, paths@, i as int);
                    }
                    constructions.push(None);
                    fields.push(None);
                },
                Ok(ExprLayout::Construct(v)) => {
                    proof {
                        lemma_paths_pass(p, paths@, i as int);
                    }
                    constructions.push(Some(v));
                    fields.push(None);
                },
                Ok(ExprLayout::Field(f)) => {
                    proof {
                        lemma_paths_pass(p, paths@, i as int);
                    }
                    constructions.push(None);
                    fields.push(Some(f));
                },
                Ok(ExprLayout::Path(prefix, remaining, steps)) => {
                    let ghost before = paths@;
                    match record_path(&mut paths, prefix, remaining, steps, Ghost(p), Ghost(i as int)) {
                        Ok(()) => {},
                        Err(m) => {
                            proof {
                                lemma_no_conflict_before(p, before, i as int);
                                assert(expr_fault(p, i as int, m@));
                                assert(!expr_ok(p, i as int));
                                assert forall|k: int| 0 <= k < i implies #[trigger] expr_ok(p, k) by {
                                    assert(!(expr_plan(p, k) is Fail));
                                }
                            }
                            return Err(m);
                        },
                    }
                    constructions.push(None);
                    fields.push(None);
                },
            }
        }
        proof {
            lemma_no_conflict_before(p, paths@, n as int);
            assert forall|e: int| 0 <= e < n implies #[trigger] expr_ok(p, e) by {
                assert(!(expr_plan(p, e) is Fail));
            }
        }
        let mut patterns: Vec<Option<Vec<RecordPatternField>>> = Vec::new();
        let m = project.hir.pats.len();
        for q in 0..m
            invariant
                p == *project,
                m == p.hir.pats@.len(),
                shapes.fits(p.type_store@),
                patterns@.len() == q,
                forall|k: int|
                    0 <= k < q ==> (match #[trigger] patterns@[k] {
                        Some(v) => Some(bindings_of(v@)),
                        None => None,
                    }) == pattern_made(pattern_plan(p, k)),
                forall|k: int| 0 <= k < q ==> !(#[trigger] pattern_plan(p, k) is Fail),
                n == p.hir.exprs@.len(),
                forall|e: int| 0 <= e < n ==> #[trigger] expr_ok(p, e),
        {
            match plan_pattern(project, &mut shapes, q) {
                Err(msg) => {
                    proof {
                        assert(!exists|e: int| 0 <= e < n && !#[trigger] expr_ok(p, e));
                    }
                    return Err(msg);
                },
                Ok(found) => {
                    patterns.push(found);
                },
            }
        }
        let table = RecordLayoutTable { constructions, fields, patterns, paths };
        proof {
            let ps = table.paths@;
            assert forall|e1: int, e2: int|
                0 <= e1 < n && 0 <= e2 < n && (#[trigger] expr_plan(p, e1) matches ExprPlan::Path(
                    x1,
                    n1,
                    s1,
                ) && #[trigger] expr_plan(p, e2) matches ExprPlan::Path(x2, n2, s2) && x1 == x2 && n1
                    == n2) implies expr_plan(p, e1) == expr_plan(p, e2) by {}
            assert forall|x: SymbolId, nm: Seq<Seq<char>>|
                #[trigger] table.path_at(x, nm) is Some implies exists|e: int|
                    0 <= e < n && #[trigger] expr_plan(p, e) == ExprPlan::Path(x, nm, table.path_at(x, nm)->0) by {
                let j = lemma_lookup_index(ps, x, nm);
                let k = ps[j].origin@;
                assert(expr_plan(p, k) == ExprPlan::Path(x, nm, table.path_at(x, nm)->0));
            }
            assert forall|e: HirExprId| #[trigger] table.construction_at(e) == if e.0 < n {
                constructed(expr_plan(p, e.0 as int))
            } else {
                None
            } by {}
            assert forall|e: HirExprId| #[trigger] table.field_at_expr(e) == if e.0 < n {
                field_read(expr_plan(p, e.0 as int))
            } else {
                None
            } by {}
            assert forall|q: HirPatId| #[trigger] table.pattern_at(q) == if q.0 < m {
                pattern_made(pattern_plan(p, q.0 as int))
            } else {
                None
            } by {}
        }
        Ok(table)
    }
}


/// The checked field a site reads, as the table describes it.
pub open spec fn site_field(table: RecordLayoutTable, site: FieldAccessSite) -> Option<FieldSpec> {
    match site {
        FieldAccessSite::Expr(e) => table.field_at_expr(e),
        FieldAccessSite::Path { prefix, remaining, index } => match table.path_at(prefix, names_of(remaining@)) {
            Some(steps) => if index < steps.len() {
                steps[index as int].field
            } else {
                None
            },
            None => None,
        },
    }
}

/// The type a value path step yields, as the table describes it.
pub open spec fn site_path_type(table: RecordLayoutTable, prefix: SymbolId, remaining: Seq<String>, index: int) -> Option<TypeId> {
    match table.path_at(prefix, names_of(remaining)) {
        Some(steps) => if 0 <= index < steps.len() {
            Some(steps[index].output)
        } else {
            None
        },
        None => None,
    }
}

impl RecordLayoutTable {
    /// The entry for a value path, if the table has one.
    fn path_entry(&self, prefix: SymbolId, remaining: &[String]) -> (r: Option<&PathEntry>)
        ensures
            match self.path_at(prefix, names_of(remaining@)) {
                Some(steps) => r matches Some(e) && steps_of(e.fields@) == steps,
                None => r is None,
            },
    {
        proof {
            use_type_invariant(self);
        }
        match find_path(&self.paths, prefix, remaining) {
            Some(j) => {
                proof {
                    lemma_lookup_found(self.paths@, j as int);
                }
                Some(&self.paths[j])
            },
            None => {
                proof {
                    lemma_lookup_absent(self.paths@, prefix, names_of(remaining@));
                }
                None
            },
        }
    }

    /// The checked field read at `site`.
    pub fn field(&self, site: FieldAccessSite) -> (r: Option<&CheckedRecordField>)
        ensures
            match site_field(*self, site) {
                Some(f) => r matches Some(c) && c@ == f,
                None => r is None,
            },
    {
        match site {
            FieldAccessSite::Expr(expr) => {
                let i = expr.0 as usize;
                if i < self.fields.len() {
                    match &self.fields[i] {
                        Some(f) => Some(f),
                        None => None,
                    }
                } else {
                    None
                }
            },
            FieldAccessSite::Path { prefix, remaining, index } => match self.path_entry(prefix, remaining) {
                Some(entry) => {
                    if index < entry.fields.len() {
                        proof {
                            assert(steps_of(entry.fields@)[index as int] == entry.fields@[index as int]@);
                        }
                        match &entry.fields[index].field {
                            Some(f) => Some(f),
                            None => None,
                        }
                    } else {
                        None
                    }
                },
                None => None,
            },
        }
    }

    /// The type yielded at `site`: the checked type of a field expression, or the output
    /// of a value path step.
    pub fn field_type(&self, project: &CheckedProject, site: FieldAccessSite) -> (r: Option<TypeId>)
        ensures
            r == match site {
                FieldAccessSite::Expr(e) => expr_type(*project, e.0 as int),
                FieldAccessSite::Path { prefix, remaining, index } => site_path_type(
                    *self,
                    prefix,
                    remaining@,
                    index as int,
                ),
            },
    {
        match site {
            FieldAccessSite::Expr(expr) => expr_type_at(project, expr.0 as usize),
            FieldAccessSite::Path { prefix, remaining, index } => match self.path_entry(prefix, remaining) {
                Some(entry) => {
                    if index < entry.fields.len() {
                        proof {
                            assert(steps_of(entry.fields@)[index as int] == entry.fields@[index as int]@);
                        }
                        Some(entry.fields[index].output)
                    } else {
                        None
                    }
                },
                None => None,
            },
        }
    }

    /// The bindings of the record pattern at `pat`.
    pub fn pattern(&self, pat: HirPatId) -> (r: Option<&[RecordPatternField]>)
        ensures
            match self.pattern_at(pat) {
                Some(v) => r matches Some(w) && bindings_of(w@) == v,
                None => r is None,
            },
    {
        let i = pat.0 as usize;
        if i < self.patterns.len() {
            match &self.patterns[i] {
                Some(v) => Some(v.as_slice()),
                None => None,
            }
        } else {
            None
        }
    }

    /// Checks the values of the record literal at `expr` against its checked layout and
    /// hands them back, in checked source order, as the record's fields.
    pub fn construct<V>(&self, expr: HirExprId, fields: Vec<(String, V)>) -> (r: Result<
        Vec<(String, V)>,
        String,
    >)
        ensures
            match self.construction_at(expr) {
                None => r matches Err(m) && m@ == "record constructor has no checked layout"@,
                Some(names) => if fields@.map_values(|f: (String, V)| f.0@) == names {
                    r == Ok::<_, String>(fields)
                } else {
                    r matches Err(m) && m@ == "record values do not follow checked source field order"@
                },
            },
    {
        let i = expr.0 as usize;
        let names = if i < self.constructions.len() {
            match &self.constructions[i] {
                Some(names) => names,
                None => {
                    return Err("record constructor has no checked layout".to_owned());
                },
            }
        } else {
            return Err("record constructor has no checked layout".to_owned());
        };
        let ghost given = fields@.map_values(|f: (String, V)| f.0@);
        if fields.len() != names.len() {
            proof {
                assert(given.len() != names_of(names@).len());
            }
            return Err("record values do not follow checked source field order".to_owned());
        }
        let n = fields.len();
        for k in 0..n
            invariant
                self.construction_at(expr) == Some(names_of(names@)),
                n == fields@.len(),
                n == names@.len(),
                given == fields@.map_values(|f: (String, V)| f.0@),
                forall|j: int| 0 <= j < k ==> given[j] == names_of(names@)[j],
        {
            if fields[k].0 != names[k] {
                proof {
                    assert(given[k as int] != names_of(names@)[k as int]);
                }
                return Err("record values do not follow checked source field order".to_owned());
            }
        }
        proof {
            assert(given =~= names_of(names@));
        }
        Ok(fields)
    }
}

} // verus!
