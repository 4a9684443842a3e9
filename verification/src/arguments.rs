//! Call arguments: the argument descriptors of each call and perform site, kept in
//! source order.
use vstd::prelude::*;

use crate::ids::HirExprId;
use crate::program::{HirArg, HirExpr, HirProgram};

verus! {

/// An argument as its position or name and the expression it evaluates.
pub open spec fn arg_view(a: HirArg) -> (Option<Seq<char>>, HirExprId) {
    match a {
        HirArg::Positional(e) => (None, e),
        HirArg::Named { name, value } => (Some(name@), value),
    }
}

/// The arguments of a list, viewed.
pub open spec fn args_view(v: Seq<HirArg>) -> Seq<(Option<Seq<char>>, HirExprId)> {
    v.map_values(|a: HirArg| arg_view(a))
}

/// The arguments of expression `e`, if it is a call or a perform.
pub open spec fn call_args(exprs: Seq<HirExpr>, e: int) -> Option<Seq<(Option<Seq<char>>, HirExprId)>> {
    if 0 <= e < exprs.len() {
        match exprs[e] {
            HirExpr::Call { args } => Some(args_view(args@)),
            HirExpr::Perform { args } => Some(args_view(args@)),
            _ => None,
        }
    } else {
        None
    }
}

fn copy_arg(a: &HirArg) -> (r: HirArg)
    ensures
        arg_view(r) == arg_view(*a),
{
    match a {
        HirArg::Positional(e) => HirArg::Positional(*e),
        HirArg::Named { name, value } => HirArg::Named { name: name.clone(), value: *value },
    }
}

fn copy_args(v: &Vec<HirArg>) -> (r: Vec<HirArg>)
    ensures
        args_view(r@) == args_view(v@),
{
    let mut r: Vec<HirArg> = Vec::new();
    for i in 0..v.len()
        invariant
            r@.len() == i,
            i <= v@.len(),
            forall|k: int| 0 <= k < i ==> arg_view(#[trigger] r@[k]) == arg_view(v@[k]),
    {
        r.push(copy_arg(&v[i]));
    }
    proof {
        assert(args_view(r@) =~= args_view(v@));
    }
    r
}

/// The argument descriptors of every call and perform site, by expression.
pub struct CallArgumentTable {
    entries: Vec<Option<Vec<HirArg>>>,
}

impl CallArgumentTable {
    /// The arguments recorded for expression `e`.
    pub closed spec fn entry(&self, e: HirExprId) -> Option<Seq<(Option<Seq<char>>, HirExprId)>> {
        if e.0 < self.entries@.len() {
            match self.entries@[e.0 as int] {
                Some(v) => Some(args_view(v@)),
                None => None,
            }
        } else {
            None
        }
    }

    /// Records the arguments of every call and perform expression.
    pub fn build(hir: &HirProgram) -> (t: Self)
        ensures
            forall|e: HirExprId| #[trigger] t.entry(e) == call_args(hir.exprs@, e.0 as int),
    {
        let n = hir.exprs.len();
        let mut entries: Vec<Option<Vec<HirArg>>> = Vec::new();
        for i in 0..n
            invariant
                n == hir.exprs@.len(),
                entries@.len() == i,
                forall|k: int|
                    0 <= k < i ==> (match #[trigger] entries@[k] {
                        Some(v) => Some(args_view(v@)),
                        None => None,
                    }) == call_args(hir.exprs@, k),
        {
            let entry = match &hir.exprs[i] {
                HirExpr::Call { args } => Some(copy_args(args)),
                HirExpr::Perform { args } => Some(copy_args(args)),
                _ => None,
            };
            entries.push(entry);
        }
        let t = CallArgumentTable { entries };
        proof {
            assert forall|e: HirExprId| #[trigger] t.entry(e) == call_args(hir.exprs@, e.0 as int) by {}
        }
        t
    }

    /// The arguments of the call or perform at `expr`.
    pub fn get(&self, expr: HirExprId) -> (r: Option<&[HirArg]>)
        ensures
            match self.entry(expr) {
                Some(v) => r matches Some(w) && args_view(w@) == v,
                None => r is None,
            },
    {
        let i = expr.0 as usize;
        if i < self.entries.len() {
            match &self.entries[i] {
                Some(v) => Some(v.as_slice()),
                None => None,
            }
        } else {
            None
        }
    }
}

} // verus!
