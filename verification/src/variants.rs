//! Named enum variants: the checked order of their fields, and how a constructor
//! written in source order is brought into that order.
use vstd::prelude::*;
use vstd::set_lib::{lemma_int_range, lemma_len_subset, set_int_range};

use crate::ids::{HirExprId, HirPatId, ItemId, SymbolId};
use crate::program::{
    field_init_names, field_init_names_of, CheckedProject, HirExpr, HirItem, HirPat,
    HirRecordPatField, ResolveResult, SymbolDef,
};
use crate::text::enclose;

verus! {

/// The character views of a list of names.
pub open spec fn names_of(v: Seq<String>) -> Seq<Seq<char>> {
    v.map_values(|s: String| s@)
}

/// No name occurs twice.
pub open spec fn distinct_names(v: Seq<Seq<char>>) -> bool {
    forall|i: int, j: int| 0 <= i < j < v.len() ==> v[i] != v[j]
}

/// Swaps positions `i` and `j`.
pub open spec fn swap_seq<A>(s: Seq<A>, i: int, j: int) -> Seq<A> {
    s.update(i, s[j]).update(j, s[i])
}

/// Applies a list of position swaps, first to last.
pub open spec fn apply_swaps<A>(s: Seq<A>, swaps: Seq<(usize, usize)>) -> Seq<A>
    decreases swaps.len(),
{
    if swaps.len() == 0 {
        s
    } else {
        swap_seq(apply_swaps(s, swaps.drop_last()), swaps.last().0 as int, swaps.last().1 as int)
    }
}

/// `0, 1, ..., n - 1`.
pub open spec fn iota(n: nat) -> Seq<int> {
    Seq::new(n, |i: int| i)
}

/// Every swap stays inside a sequence of length `n`.
pub open spec fn swaps_within(swaps: Seq<(usize, usize)>, n: nat) -> bool {
    forall|k: int| 0 <= k < swaps.len() ==> (#[trigger] swaps[k]).0 < n && swaps[k].1 < n
}

/// Swapping moves elements: position `k` of the result holds the element that
/// the same swaps bring to `k` from `0, 1, ..., n - 1`.
pub proof fn lemma_apply_swaps<A>(s: Seq<A>, swaps: Seq<(usize, usize)>)
    requires
        swaps_within(swaps, s.len()),
    ensures
        apply_swaps(s, swaps).len() == s.len(),
        apply_swaps(iota(s.len()), swaps).len() == s.len(),
        forall|k: int|
            0 <= k < s.len() ==> 0 <= #[trigger] apply_swaps(iota(s.len()), swaps)[k] < s.len(),
        forall|k: int|
            0 <= k < s.len() ==> #[trigger] apply_swaps(s, swaps)[k] == s[apply_swaps(
                iota(s.len()),
                swaps,
            )[k]],
    decreases swaps.len(),
{
    if swaps.len() > 0 {
        let rest = swaps.drop_last();
        assert(swaps_within(rest, s.len())) by {
            assert forall|k: int| 0 <= k < rest.len() implies (#[trigger] rest[k]).0 < s.len()
                && rest[k].1 < s.len() by {
                assert(rest[k] == swaps[k]);
            }
        }
        lemma_apply_swaps(s, rest);
        assert(swaps.last() == swaps[swaps.len() - 1]);
    }
}

/// Source field `i` is not declared, or repeats an earlier source field.
pub open spec fn bad_source_field(declared: Seq<Seq<char>>, source: Seq<Seq<char>>, i: int) -> bool {
    !declared.contains(source[i]) || source.take(i).contains(source[i])
}

/// A constructor's fields can be brought into declared order.
pub open spec fn layout_fits(declared: Seq<Seq<char>>, source: Seq<Seq<char>>) -> bool {
    &&& declared.len() == source.len()
    &&& distinct_names(declared)
    &&& forall|i: int| 0 <= i < source.len() ==> !#[trigger] bad_source_field(declared, source, i)
}

/// The error for a field that is unknown or given twice.
pub open spec fn unknown_field_message(name: Seq<char>) -> Seq<char> {
    "unknown or duplicate named variant field `"@ + name + "`"@
}

/// The error for a pattern field that is unknown or given twice.
pub open spec fn unknown_pattern_field_message(name: Seq<char>) -> Seq<char> {
    "unknown or duplicate named variant pattern field `"@ + name + "`"@
}

/// The error a layout build reports when the fields do not fit.
pub open spec fn layout_error(declared: Seq<Seq<char>>, source: Seq<Seq<char>>, m: Seq<char>) -> bool {
    if declared.len() != source.len() {
        m == "named variant field count differs from checked declaration"@
    } else if !distinct_names(declared) {
        m == "named variant declaration has duplicate fields"@
    } else {
        exists|i: int|
            0 <= i < source.len() && #[trigger] bad_source_field(declared, source, i) && (forall|
                j: int,
            |
                0 <= j < i ==> !#[trigger] bad_source_field(declared, source, j)) && m
                == unknown_field_message(source[i])
    }
}

/// How a named variant constructor's values are put into declared order.
pub struct NamedVariantLayout {
    symbol: SymbolId,
    source_names: Vec<String>,
    swaps: Vec<(usize, usize)>,
    declared: Ghost<Seq<Seq<char>>>,
}

impl NamedVariantLayout {
    #[verifier::type_invariant]
    spec fn inv(self) -> bool {
        let n = self.source_names@.len();
        &&& self.declared@.len() == n
        &&& distinct_names(self.declared@)
        &&& swaps_within(self.swaps@, n)
        &&& forall|k: int|
            0 <= k < n ==> names_of(self.source_names@)[#[trigger] apply_swaps(
                iota(n),
                self.swaps@,
            )[k]] == self.declared@[k]
    }

    /// The constructor symbol the layout is for.
    pub closed spec fn symbol(&self) -> SymbolId {
        self.symbol
    }

    /// Field names in source order.
    pub closed spec fn source(&self) -> Seq<Seq<char>> {
        names_of(self.source_names@)
    }

    /// Field names in declared order.
    pub closed spec fn declared(&self) -> Seq<Seq<char>> {
        self.declared@
    }

    /// The number of swaps that put source order into declared order.
    pub closed spec fn swap_total(&self) -> nat {
        self.swaps@.len()
    }

    /// The number of swaps that put source order into declared order.
    pub fn swap_count(&self) -> (n: usize)
        ensures
            n == self.swap_total(),
    {
        self.swaps.len()
    }
}

/// Position of a name among distinct names, if present.
fn position(names: &[String], name: &String) -> (r: Option<usize>)
    ensures
        match r {
            Some(j) => j < names@.len() && names@[j as int]@ == name@,
            None => !names_of(names@).contains(name@),
        },
{
    let mut j: usize = 0;
    while j < names.len()
        invariant
            j <= names@.len(),
            forall|k: int| 0 <= k < j ==> names@[k]@ != name@,
        decreases names@.len() - j,
    {
        if names[j] == *name {
            return Some(j);
        }
        j += 1;
    }
    proof {
        if names_of(names@).contains(name@) {
            let k = choose|k: int| 0 <= k < names_of(names@).len() && names_of(names@)[k] == name@;
            assert(names@[k]@ == name@);
        }
    }
    None
}

/// Whether some name occurs twice.
fn has_duplicate(names: &[String]) -> (r: bool)
    ensures
        r == !distinct_names(names_of(names@)),
{
    let n = names.len();
    for i in 0..n
        invariant
            n == names@.len(),
            forall|a: int, b: int| 0 <= a < b < i ==> names@[a]@ != names@[b]@,
    {
        for j in 0..i
            invariant
                n == names@.len(),
                i < n,
                forall|a: int| 0 <= a < j ==> names@[a]@ != names@[i as int]@,
        {
            if names[j] == names[i] {
                proof {
                    assert(names_of(names@)[j as int] == names_of(names@)[i as int]);
                }
                return true;
            }
        }
    }
    proof {
        assert forall|a: int, b: int|
            0 <= a < b < names_of(names@).len() implies names_of(names@)[a] != names_of(
            names@,
        )[b] by {
            assert(names@[a]@ != names@[b]@);
        }
    }
    false
}

/// Swaps two elements of a vector: takes both out, then puts each back at the other's
/// position.
fn swap_items<V>(v: &mut Vec<V>, i: usize, j: usize)
    requires
        i < old(v)@.len(),
        j < old(v)@.len(),
    ensures
        final(v)@ == swap_seq(old(v)@, i as int, j as int),
{
    let ghost s = v@;
    if i == j {
        proof {
            assert(v@ =~= swap_seq(s, i as int, j as int));
        }
        return;
    }
    let (lo, hi) = if i < j {
        (i, j)
    } else {
        (j, i)
    };
    let b = v.remove(hi);
    let a = v.remove(lo);
    v.insert(lo, b);
    v.insert(hi, a);
    proof {
        assert(v@ =~= swap_seq(s, i as int, j as int));
    }
}

/// A destination array that is a permutation of `0..n`.
spec fn is_permutation(d: Seq<usize>, n: nat) -> bool {
    &&& d.len() == n
    &&& forall|i: int| 0 <= i < n ==> (#[trigger] d[i]) < n
    &&& forall|i: int, j: int| 0 <= i < j < n ==> d[i] != d[j]
}

spec fn fixed_points(d: Seq<usize>) -> Set<int> {
    Set::new(|k: int| 0 <= k < d.len() && d[k] == k)
}

/// The fixed points of `d` other than position 0.
spec fn fixed_after_first(d: Seq<usize>) -> Set<int> {
    Set::new(|k: int| 1 <= k < d.len() && d[k] == k)
}

/// There are fewer fixed points after position 0 than positions, and none without a
/// position.
proof fn lemma_fixed_after_first_bound(d: Seq<usize>)
    ensures
        fixed_after_first(d).finite(),
        d.len() > 0 ==> fixed_after_first(d).len() < d.len(),
        d.len() == 0 ==> fixed_after_first(d).len() == 0,
{
    let f = fixed_after_first(d);
    if d.len() > 0 {
        assert(f.subset_of(set_int_range(1, d.len() as int)));
        lemma_int_range(1, d.len() as int);
        lemma_len_subset(f, set_int_range(1, d.len() as int));
    } else {
        assert(f =~= Set::<int>::empty());
    }
}

/// Decomposes the permutation `d` into swaps: applying them to `0..n` puts
/// source position `i` at `d[i]`.
fn cycle_swaps(d: Vec<usize>) -> (swaps: Vec<(usize, usize)>)
    requires
        is_permutation(d@, d@.len()),
    ensures
        swaps_within(swaps@, d@.len()),
        forall|k: int|
            0 <= k < d@.len() ==> d@[#[trigger] apply_swaps(iota(d@.len()), swaps@)[k]] == k,
        d@.len() > 0 ==> swaps@.len() < d@.len(),
        d@.len() == 0 ==> swaps@.len() == 0,
{
    let n = d.len();
    let ghost d0 = d@;
    let mut cur = d;
    let mut swaps: Vec<(usize, usize)> = Vec::new();
    for index in 0..n
        invariant
            n == d0.len(),
            is_permutation(cur@, n as nat),
            swaps_within(swaps@, n as nat),
            apply_swaps(iota(n as nat), swaps@).len() == n,
            forall|k: int|
                0 <= k < n ==> 0 <= #[trigger] apply_swaps(iota(n as nat), swaps@)[k] < n && cur@[k]
                    == d0[apply_swaps(iota(n as nat), swaps@)[k]],
            forall|k: int| 0 <= k < index ==> #[trigger] cur@[k] == k,
            cur@.len() == n,
            swaps@.len() <= fixed_after_first(cur@).len(),
    {
        while cur[index] != index
            invariant
                n == d0.len(),
                index < n,
                is_permutation(cur@, n as nat),
                swaps_within(swaps@, n as nat),
                apply_swaps(iota(n as nat), swaps@).len() == n,
                forall|k: int|
                    0 <= k < n ==> 0 <= #[trigger] apply_swaps(iota(n as nat), swaps@)[k] < n
                        && cur@[k] == d0[apply_swaps(iota(n as nat), swaps@)[k]],
                forall|k: int| 0 <= k < index ==> #[trigger] cur@[k] == k,
                cur@.len() == n,
                swaps@.len() <= fixed_after_first(cur@).len(),
            decreases n - fixed_points(cur@).len(),
        {
            let target = cur[index];
            let ghost before = cur@;
            let ghost sw0 = swaps@;
            proof {
                assert(before[target as int] != target) by {
                    if before[target as int] == target {
                        assert(before[index as int] == before[target as int]);
                    }
                }
                assert(target >= index) by {
                    if target < index {
                        assert(before[target as int] == target);
                    }
                }
            }
            swaps.push((index, target));
            let a = cur[index];
            let b = cur[target];
            cur.set(index, b);
            cur.set(target, a);
            proof {
                let sw = swaps@;
                assert(sw.drop_last() == sw0);
                assert(sw.last() == (index, target));
                assert(swaps_within(sw, n as nat)) by {
                    assert forall|k: int| 0 <= k < sw.len() implies (#[trigger] sw[k]).0 < n
                        && sw[k].1 < n by {
                        if k < sw0.len() {
                            assert(sw[k] == sw0[k]);
                        }
                    }
                }
                assert(cur@ == swap_seq(before, index as int, target as int));
                assert forall|i: int, j: int| 0 <= i < j < n implies cur@[i] != cur@[j] by {
                    assert(before[i] != before[j] || i == j);
                }
                // the fixed points grow by `target`
                let f0 = fixed_points(before);
                let f1 = fixed_points(cur@);
                assert(f0.insert(target as int).subset_of(f1));
                assert(!f0.contains(target as int));
                assert(f1.subset_of(set_int_range(0, n as int)));
                lemma_int_range(0, n as int);
                lemma_len_subset(f1, set_int_range(0, n as int));
                assert(f0.subset_of(set_int_range(0, n as int)));
                lemma_len_subset(f0, set_int_range(0, n as int));
                lemma_len_subset(f0.insert(target as int), f1);
                // so do those after position 0, since `target` comes after `index`
                let g0 = fixed_after_first(before);
                let g1 = fixed_after_first(cur@);
                assert(target != index && target >= 1);
                lemma_fixed_after_first_bound(before);
                assert(g0.insert(target as int).subset_of(g1));
                assert(!g0.contains(target as int));
                lemma_fixed_after_first_bound(cur@);
                lemma_len_subset(g0.insert(target as int), g1);
            }
        }
    }
    proof {
        lemma_fixed_after_first_bound(cur@);
    }
    swaps
}

impl NamedVariantLayout {
    /// Checks a constructor's source field order against the declared field
    /// order and records how to bring one into the other.
    pub fn build(symbol: SymbolId, declared: &[String], source: Vec<String>) -> (r: Result<
        Self,
        String,
    >)
        ensures
            match r {
                Ok(layout) => {
                    &&& layout_fits(names_of(declared@), names_of(source@))
                    &&& layout.symbol() == symbol
                    &&& layout.source() == names_of(source@)
                    &&& layout.declared() == names_of(declared@)
                    &&& declared@.len() > 0 ==> layout.swap_total() < declared@.len()
                    &&& declared@.len() == 0 ==> layout.swap_total() == 0
                },
                Err(m) => !layout_fits(names_of(declared@), names_of(source@)) && layout_error(
                    names_of(declared@),
                    names_of(source@),
                    m@,
                ),
            },
    {
        let ghost dn = names_of(declared@);
        let ghost sn = names_of(source@);
        if declared.len() != source.len() {
            return Err("named variant field count differs from checked declaration".to_owned());
        }
        if has_duplicate(declared) {
            return Err("named variant declaration has duplicate fields".to_owned());
        }
        let n = declared.len();
        let mut taken: Vec<bool> = Vec::new();
        for i in 0..n
            invariant
                taken@.len() == i,
                forall|k: int| 0 <= k < i ==> !(#[trigger] taken@[k]),
        {
            taken.push(false);
        }
        let mut destinations: Vec<usize> = Vec::new();
        for i in 0..n
            invariant
                n == declared@.len(),
                n == source@.len(),
                dn == names_of(declared@),
                sn == names_of(source@),
                distinct_names(dn),
                taken@.len() == n,
                destinations@.len() == i,
                forall|k: int|
                    0 <= k < i ==> (#[trigger] destinations@[k]) < n && dn[destinations@[k] as int]
                        == sn[k],
                forall|j: int|
                    0 <= j < n ==> (#[trigger] taken@[j] <==> sn.take(i as int).contains(dn[j])),
                forall|k: int| 0 <= k < i ==> !#[trigger] bad_source_field(dn, sn, k),
        {
            let found = position(declared, &source[i]);
            proof {
                assert(sn[i as int] == source@[i as int]@);
            }
            match found {
                Some(j) if !taken[j] => {
                    proof {
                        assert(dn[j as int] == sn[i as int]);
                        assert(!sn.take(i as int).contains(sn[i as int]));
                        assert(dn.contains(sn[i as int]));
                        assert(sn.take(i + 1) == sn.take(i as int).push(sn[i as int]));
                        assert forall|jj: int| 0 <= jj < n implies (#[trigger] taken@.update(
                            j as int,
                            true,
                        )[jj] <==> sn.take(i + 1).contains(dn[jj])) by {
                            if jj == j {
                                assert(sn.take(i + 1)[i as int] == dn[jj]);
                            } else {
                                assert(dn[jj] != dn[j as int]);
                                if sn.take(i + 1).contains(dn[jj]) {
                                    let q = choose|q: int|
                                        0 <= q < i + 1 && #[trigger] sn.take(i + 1)[q] == dn[jj];
                                    assert(q < i);
                                    assert(sn.take(i as int)[q] == dn[jj]);
                                }
                            }
                        }
                    }
                    taken.set(j, true);
                    destinations.push(j);
                },
                _ => {
                    proof {
                        assert(bad_source_field(dn, sn, i as int)) by {
                            match found {
                                Some(j) => {
                                    assert(taken@[j as int]);
                                    assert(dn[j as int] == sn[i as int]);
                                },
                                None => {},
                            }
                        }
                        assert(layout_error(dn, sn, unknown_field_message(sn[i as int])));
                    }
                    return Err(enclose("unknown or duplicate named variant field `", source[i].as_str(), "`"));
                },
            }
        }
        proof {
            assert forall|a: int, b: int| 0 <= a < b < n implies destinations@[a] != destinations@[b] by {
                if destinations@[a] == destinations@[b] {
                    assert(sn[a] == sn[b]);
                    assert(sn.take(b)[a] == sn[b]);
                    assert(bad_source_field(dn, sn, b));
                }
            }
        }
        let swaps = cycle_swaps(destinations);
        proof {
            assert(layout_fits(dn, sn));
        }
        let ghost d = destinations@;
        proof {
            let p = apply_swaps(iota(n as nat), swaps@);
            lemma_apply_swaps(iota(n as nat), swaps@);
            assert(iota(n as nat).len() == n);
            assert forall|k: int| 0 <= k < n implies names_of(source@)[#[trigger] p[k]] == dn[k] by {
                assert(0 <= p[k] < n);
                assert(d[p[k]] == k);
                assert(dn[d[p[k]] as int] == sn[p[k]]);
            }
        }
        let layout = NamedVariantLayout { symbol, source_names: source, swaps, declared: Ghost(dn) };
        Ok(layout)
    }
}

/// Takes the values out of name/value pairs, in order.
fn payloads<V>(values: Vec<(String, V)>) -> (fields: Vec<V>)
    ensures
        fields@.len() == values@.len(),
        forall|i: int| 0 <= i < values@.len() ==> fields@[i] == (#[trigger] values@[i]).1,
{
    let ghost vs = values@;
    let mut fields: Vec<V> = Vec::new();
    for pair in it: values
        invariant
            it.seq() == vs,
            fields@.len() == it.index(),
            forall|i: int| 0 <= i < it.index() ==> fields@[i] == (#[trigger] vs[i]).1,
    {
        let (_, value) = pair;
        fields.push(value);
    }
    fields
}

impl NamedVariantLayout {
    /// Puts constructor values given in source order into declared order.
    pub fn reorder<V>(&self, symbol: SymbolId, values: Vec<(String, V)>) -> (r: Result<Vec<V>, String>)
        ensures
            match r {
                Ok(fields) => {
                    &&& symbol == self.symbol()
                    &&& values@.len() == self.source().len()
                    &&& forall|i: int|
                        0 <= i < values@.len() ==> (#[trigger] values@[i]).0@ == self.source()[i]
                    &&& fields@.len() == values@.len()
                    &&& forall|k: int, i: int|
                        0 <= k < fields@.len() && 0 <= i < values@.len() && values@[i].0@
                            == self.declared()[k] ==> #[trigger] fields@[k] == #[trigger] values@[i].1
                },
                Err(m) => if symbol != self.symbol() || values@.len() != self.source().len() {
                    m@ == "named variant does not match checked constructor layout"@
                } else {
                    &&& exists|i: int|
                        0 <= i < values@.len() && (#[trigger] values@[i]).0@ != self.source()[i]
                    &&& m@ == "named variant values do not follow checked source field order"@
                },
            },
    {
        proof {
            use_type_invariant(self);
        }
        let n = self.source_names.len();
        if symbol.0 != self.symbol.0 || values.len() != n {
            return Err("named variant does not match checked constructor layout".to_owned());
        }
        for i in 0..n
            invariant
                n == values@.len(),
                n == self.source_names@.len(),
                symbol == self.symbol,
                forall|k: int| 0 <= k < i ==> (#[trigger] values@[k]).0@ == self.source_names@[k]@,
        {
            if !(values[i].0 == self.source_names[i]) {
                proof {
                    assert(values@.len() == self.source().len());
                    assert(symbol == self.symbol());
                    assert(self.source()[i as int] == self.source_names@[i as int]@);
                    assert(values@[i as int].0@ != self.source()[i as int]);
                }
                return Err("named variant values do not follow checked source field order".to_owned());
            }
        }
        let ghost vs = values@;
        let mut fields = payloads(values);
        let ghost f0 = fields@;
        let m = self.swaps.len();
        for j in 0..m
            invariant
                m == self.swaps@.len(),
                swaps_within(self.swaps@, n as nat),
                f0.len() == n,
                fields@ == apply_swaps(f0, self.swaps@.take(j as int)),
        {
            let (left, right) = self.swaps[j];
            proof {
                let t = self.swaps@.take(j as int);
                assert(swaps_within(t, n as nat)) by {
                    assert forall|k: int| 0 <= k < t.len() implies (#[trigger] t[k]).0 < n
                        && t[k].1 < n by {
                        assert(t[k] == self.swaps@[k]);
                    }
                }
                lemma_apply_swaps(f0, t);
                assert(self.swaps@.take(j + 1).drop_last() == t);
                assert(self.swaps@.take(j + 1).last() == self.swaps@[j as int]);
            }
            swap_items(&mut fields, left, right);
        }
        proof {
            assert(self.swaps@.take(m as int) == self.swaps@);
            lemma_apply_swaps(f0, self.swaps@);
            let p = apply_swaps(iota(n as nat), self.swaps@);
            assert forall|k: int, i: int|
                0 <= k < n && 0 <= i < n && vs[i].0@ == self.declared@[k] implies #[trigger] fields@[k]
                == #[trigger] vs[i].1 by {
                assert(fields@[k] == f0[p[k]]);
                assert(names_of(self.source_names@)[p[k]] == self.declared@[k]);
                assert(vs[p[k]].0@ == self.source_names@[p[k]]@);
                assert(vs[i].0@ == self.source_names@[i]@);
                if p[k] != i {
                    // source names are a permutation of the distinct declared names
                    let a = if p[k] < i { p[k] } else { i };
                    let b = if p[k] < i { i } else { p[k] };
                    assert(names_of(self.source_names@)[a] == names_of(self.source_names@)[b]);
                    lemma_source_distinct(self);
                }
            }
        }
        Ok(fields)
    }
}

/// Source names are distinct, since they are a rearrangement of the declared names.
proof fn lemma_source_distinct(layout: &NamedVariantLayout)
    requires
        layout.inv(),
    ensures
        distinct_names(names_of(layout.source_names@)),
{
    let n = layout.source_names@.len();
    let sn = names_of(layout.source_names@);
    let p = apply_swaps(iota(n), layout.swaps@);
    lemma_apply_swaps(iota(n), layout.swaps@);
    // p is a bijection on 0..n (it is a rearrangement of 0..n)
    lemma_swaps_bijective(n, layout.swaps@);
    assert forall|a: int, b: int| 0 <= a < b < n implies sn[a] != sn[b] by {
        assert(covers(p, a) && covers(p, b));
        let ka = choose|k: int| 0 <= k < p.len() && #[trigger] p[k] == a;
        let kb = choose|k: int| 0 <= k < p.len() && #[trigger] p[k] == b;
        assert(sn[p[ka]] == layout.declared@[ka]);
        assert(sn[p[kb]] == layout.declared@[kb]);
        assert(ka != kb);
    }
}

spec fn covers(p: Seq<int>, x: int) -> bool {
    exists|k: int| 0 <= k < p.len() && #[trigger] p[k] == x
}

/// Swapping `0..n` yields every position.
proof fn lemma_swaps_bijective(n: nat, swaps: Seq<(usize, usize)>)
    requires
        swaps_within(swaps, n),
    ensures
        forall|x: int| 0 <= x < n ==> #[trigger] covers(apply_swaps(iota(n), swaps), x),
    decreases swaps.len(),
{
    lemma_apply_swaps(iota(n), swaps);
    if swaps.len() == 0 {
        assert forall|x: int| 0 <= x < n implies #[trigger] covers(apply_swaps(iota(n), swaps), x) by {
            assert(apply_swaps(iota(n), swaps)[x] == x);
        }
    } else {
        let rest = swaps.drop_last();
        assert(swaps_within(rest, n)) by {
            assert forall|k: int| 0 <= k < rest.len() implies (#[trigger] rest[k]).0 < n && rest[k].1
                < n by {
                assert(rest[k] == swaps[k]);
            }
        }
        lemma_swaps_bijective(n, rest);
        lemma_apply_swaps(iota(n), rest);
        let q = apply_swaps(iota(n), rest);
        let (i, j) = (swaps.last().0 as int, swaps.last().1 as int);
        assert(swaps.last() == swaps[swaps.len() - 1]);
        assert forall|x: int| 0 <= x < n implies #[trigger] covers(apply_swaps(iota(n), swaps), x) by {
            assert(covers(q, x));
            let k = choose|k: int| 0 <= k < q.len() && #[trigger] q[k] == x;
            if k == i {
                assert(apply_swaps(iota(n), swaps)[j] == x);
            } else if k == j {
                assert(apply_swaps(iota(n), swaps)[i] == x);
            } else {
                assert(apply_swaps(iota(n), swaps)[k] == x);
            }
        }
    }
}

/// The position of `name` among `names`.
pub open spec fn name_index(names: Seq<Seq<char>>, name: Seq<char>) -> int {
    choose|j: int| 0 <= j < names.len() && names[j] == name
}

/// Names of pattern fields, in order.
pub open spec fn pattern_names(fields: Seq<HirRecordPatField>) -> Seq<Seq<char>> {
    fields.map_values(|f: HirRecordPatField| f.name@)
}

/// The declared slot and binding of each pattern field that binds a sub-pattern.
pub open spec fn pattern_bindings(declared: Seq<Seq<char>>, fields: Seq<HirRecordPatField>) -> Seq<
    (usize, HirPatId),
>
    decreases fields.len(),
{
    if fields.len() == 0 {
        Seq::empty()
    } else {
        let rest = pattern_bindings(declared, fields.drop_last());
        match fields.last().pat {
            Some(p) => rest.push((name_index(declared, fields.last().name@) as usize, p)),
            None => rest,
        }
    }
}

/// The error a pattern layout build reports.
pub open spec fn pattern_layout_error(declared: Seq<Seq<char>>, names: Seq<Seq<char>>, m: Seq<char>) -> bool {
    if !distinct_names(declared) {
        m == "named variant declaration has duplicate fields"@
    } else {
        exists|i: int|
            0 <= i < names.len() && #[trigger] bad_source_field(declared, names, i) && (forall|j: int|
                0 <= j < i ==> !#[trigger] bad_source_field(declared, names, j)) && m
                == unknown_pattern_field_message(names[i])
    }
}

/// The declared slots that a named variant pattern binds.
pub struct NamedVariantPatternLayout {
    pub symbol: SymbolId,
    pub name: String,
    pub arity: usize,
    pub fields: Vec<(usize, HirPatId)>,
}

impl NamedVariantPatternLayout {
    /// Resolves each field of a named variant pattern to its declared slot.
    pub fn build(symbol: SymbolId, name: &str, declared: &[String], fields: &[HirRecordPatField]) -> (r:
        Result<Self, String>)
        ensures
            match r {
                Ok(layout) => {
                    &&& distinct_names(names_of(declared@))
                    &&& forall|i: int|
                        0 <= i < fields@.len() ==> !#[trigger] bad_source_field(
                            names_of(declared@),
                            pattern_names(fields@),
                            i,
                        )
                    &&& layout.symbol == symbol
                    &&& layout.name@ == name@
                    &&& layout.arity == declared@.len()
                    &&& layout.fields@ == pattern_bindings(names_of(declared@), fields@)
                },
                Err(m) => pattern_layout_error(names_of(declared@), pattern_names(fields@), m@),
            },
    {
        let ghost dn = names_of(declared@);
        let ghost pn = pattern_names(fields@);
        if has_duplicate(declared) {
            return Err("named variant declaration has duplicate fields".to_owned());
        }
        let n = declared.len();
        let mut taken: Vec<bool> = Vec::new();
        for i in 0..n
            invariant
                taken@.len() == i,
                forall|k: int| 0 <= k < i ==> !(#[trigger] taken@[k]),
        {
            taken.push(false);
        }
        let mut bindings: Vec<(usize, HirPatId)> = Vec::new();
        let count = fields.len();
        for i in 0..count
            invariant
                n == declared@.len(),
                count == fields@.len(),
                dn == names_of(declared@),
                pn == pattern_names(fields@),
                distinct_names(dn),
                taken@.len() == n,
                bindings@ == pattern_bindings(dn, fields@.take(i as int)),
                forall|j: int|
                    0 <= j < n ==> (#[trigger] taken@[j] <==> pn.take(i as int).contains(dn[j])),
                forall|k: int| 0 <= k < i ==> !#[trigger] bad_source_field(dn, pn, k),
        {
            let field = &fields[i];
            let found = position(declared, &field.name);
            proof {
                assert(pn[i as int] == fields@[i as int].name@);
                assert(fields@.take(i + 1).drop_last() == fields@.take(i as int));
                assert(fields@.take(i + 1).last() == fields@[i as int]);
            }
            match found {
                Some(j) if !taken[j] => {
                    proof {
                        assert(dn[j as int] == pn[i as int]);
                        assert(!pn.take(i as int).contains(pn[i as int]));
                        assert(dn.contains(pn[i as int]));
                        assert(pn.take(i + 1) == pn.take(i as int).push(pn[i as int]));
                        assert forall|jj: int| 0 <= jj < n implies (#[trigger] taken@.update(
                            j as int,
                            true,
                        )[jj] <==> pn.take(i + 1).contains(dn[jj])) by {
                            if jj == j {
                                assert(pn.take(i + 1)[i as int] == dn[jj]);
                            } else {
                                assert(dn[jj] != dn[j as int]);
                                if pn.take(i + 1).contains(dn[jj]) {
                                    let q = choose|q: int|
                                        0 <= q < i + 1 && #[trigger] pn.take(i + 1)[q] == dn[jj];
                                    assert(q < i);
                                    assert(pn.take(i as int)[q] == dn[jj]);
                                }
                            }
                        }
                        assert(name_index(dn, pn[i as int]) == j) by {
                            let w = name_index(dn, pn[i as int]);
                            assert(0 <= w < dn.len() && dn[w] == pn[i as int]);
                        }
                    }
                    taken.set(j, true);
                    match field.pat {
                        Some(pat) => bindings.push((j, pat)),
                        None => {},
                    }
                },
                _ => {
                    proof {
                        assert(bad_source_field(dn, pn, i as int)) by {
                            match found {
                                Some(j) => {
                                    assert(taken@[j as int]);
                                    assert(dn[j as int] == pn[i as int]);
                                },
                                None => {
                                    assert(!names_of(declared@).contains(pn[i as int]));
                                },
                            }
                        }
                        assert(pattern_layout_error(dn, pn, unknown_pattern_field_message(pn[i as int])));
                    }
                    return Err(
                        enclose(
                            "unknown or duplicate named variant pattern field `",
                            field.name.as_str(),
                            "`",
                        ),
                    );
                },
            }
        }
        proof {
            assert(fields@.take(count as int) == fields@);
        }
        Ok(
            NamedVariantPatternLayout {
                symbol,
                name: name.to_owned(),
                arity: n,
                fields: bindings,
            },
        )
    }
}

/// The symbol a resolved constructor path names.
pub open spec fn resolved_path_symbol(path: Option<crate::program::HirPath>) -> Option<SymbolId> {
    match path {
        Some(p) => match p.resolution {
            ResolveResult::Resolved(s) => Some(s),
            _ => None,
        },
        None => None,
    }
}

/// The enum item and variant index a symbol stands for, if it names a variant.
pub open spec fn variant_of(project: CheckedProject, s: SymbolId) -> Option<(ItemId, u32)> {
    match project.symbols@[s.0 as int].def {
        SymbolDef::EnumVariant { enum_item, variant_index } => Some((enum_item, variant_index)),
        _ => None,
    }
}

/// `item` is a declared enum.
pub open spec fn is_enum_item(project: CheckedProject, item: ItemId) -> bool {
    item.0 < project.hir.items@.len() && project.hir.items@[item.0 as int] is Enum
}

/// The declared field names of variant `index` of enum `item`, if it is named.
pub open spec fn declared_fields(project: CheckedProject, item: ItemId, index: u32) -> Option<
    Seq<Seq<char>>,
> {
    match project.hir.items@[item.0 as int] {
        HirItem::Enum(variants) => if index < variants@.len() {
            match variants@[index as int].field_names {
                Some(names) => Some(names_of(names@)),
                None => None,
            }
        } else {
            None
        },
        _ => None,
    }
}

/// A site (constructor or pattern) naming `s`: the error it raises, if any.
/// `what` tells a constructor from a pattern in the messages.
pub open spec fn site_lookup_error(project: CheckedProject, s: SymbolId, pattern: bool) -> Option<
    Seq<char>,
> {
    if s.0 >= project.symbols@.len() {
        Some(
            if pattern {
                "record pattern has an invalid symbol"@
            } else {
                "record constructor has an invalid symbol"@
            },
        )
    } else {
        match variant_of(project, s) {
            None => None,
            Some((item, index)) => if !is_enum_item(project, item) {
                Some(
                    if pattern {
                        "variant pattern has no enum declaration"@
                    } else {
                        "variant constructor has no enum declaration"@
                    },
                )
            } else if declared_fields(project, item, index) is None {
                Some(
                    if pattern {
                        "named variant pattern has no checked field declaration"@
                    } else {
                        "named variant has no checked field declaration"@
                    },
                )
            } else {
                None
            },
        }
    }
}

/// The constructor symbol of expression `e`, if it is a record literal naming one.
pub open spec fn constructor_symbol(project: CheckedProject, e: int) -> Option<SymbolId> {
    match project.hir.exprs@[e] {
        HirExpr::Record(r) => resolved_path_symbol(r.path),
        _ => None,
    }
}

/// The source field names of the record literal `e`.
pub open spec fn constructor_source(project: CheckedProject, e: int) -> Seq<Seq<char>> {
    match project.hir.exprs@[e] {
        HirExpr::Record(r) => field_init_names(r.fields@),
        _ => Seq::empty(),
    }
}

/// Expression `e` constructs a named variant: its symbol and declared fields.
pub open spec fn variant_constructor(project: CheckedProject, e: int) -> Option<
    (SymbolId, Seq<Seq<char>>),
> {
    match constructor_symbol(project, e) {
        Some(s) => if site_lookup_error(project, s, false) is None && s.0 < project.symbols@.len() {
            match variant_of(project, s) {
                Some((item, index)) => Some((s, declared_fields(project, item, index)->0)),
                None => None,
            }
        } else {
            None
        },
        None => None,
    }
}

/// Expression `e` makes the layout build fail with message `m`.
pub open spec fn constructor_fails(project: CheckedProject, e: int, m: Seq<char>) -> bool {
    match constructor_symbol(project, e) {
        Some(s) => match site_lookup_error(project, s, false) {
            Some(err) => m == err,
            None => match variant_constructor(project, e) {
                Some((_, declared)) => !layout_fits(declared, constructor_source(project, e))
                    && layout_error(declared, constructor_source(project, e), m),
                None => false,
            },
        },
        None => false,
    }
}

/// The symbol of pattern `p`, if it is a record pattern naming one.
pub open spec fn pattern_symbol(project: CheckedProject, p: int) -> Option<SymbolId> {
    match project.hir.pats@[p] {
        HirPat::Record { path, .. } => resolved_path_symbol(path),
        _ => None,
    }
}

/// The fields of record pattern `p`.
pub open spec fn pattern_fields(project: CheckedProject, p: int) -> Seq<HirRecordPatField> {
    match project.hir.pats@[p] {
        HirPat::Record { fields, .. } => fields@,
        _ => Seq::empty(),
    }
}

/// Pattern `p` matches a named variant: its symbol and declared fields.
pub open spec fn variant_pattern(project: CheckedProject, p: int) -> Option<(SymbolId, Seq<Seq<char>>)> {
    match pattern_symbol(project, p) {
        Some(s) => if site_lookup_error(project, s, true) is None && s.0 < project.symbols@.len() {
            match variant_of(project, s) {
                Some((item, index)) => Some((s, declared_fields(project, item, index)->0)),
                None => None,
            }
        } else {
            None
        },
        None => None,
    }
}

/// The pattern's fields resolve against the declaration.
pub open spec fn pattern_fits(declared: Seq<Seq<char>>, fields: Seq<HirRecordPatField>) -> bool {
    &&& distinct_names(declared)
    &&& forall|i: int|
        0 <= i < fields.len() ==> !#[trigger] bad_source_field(declared, pattern_names(fields), i)
}

/// Pattern `p` makes the layout build fail with message `m`.
pub open spec fn pattern_fails(project: CheckedProject, p: int, m: Seq<char>) -> bool {
    match pattern_symbol(project, p) {
        Some(s) => match site_lookup_error(project, s, true) {
            Some(err) => m == err,
            None => match variant_pattern(project, p) {
                Some((_, declared)) => !pattern_fits(declared, pattern_fields(project, p))
                    && pattern_layout_error(declared, pattern_names(pattern_fields(project, p)), m),
                None => false,
            },
        },
        None => false,
    }
}

/// The layout build fails with `m`: the failure of the first constructor that fails,
/// or, when no constructor fails, of the first pattern that fails.
pub open spec fn variant_site_error(project: CheckedProject, m: Seq<char>) -> bool {
    if exists|e: int, m2: Seq<char>|
        0 <= e < project.hir.exprs@.len() && #[trigger] constructor_fails(project, e, m2) {
        exists|e: int|
            0 <= e < project.hir.exprs@.len() && #[trigger] constructor_fails(project, e, m) && forall|
                k: int,
                m2: Seq<char>,
            | 0 <= k < e ==> !#[trigger] constructor_fails(project, k, m2)
    } else {
        exists|p: int|
            0 <= p < project.hir.pats@.len() && #[trigger] pattern_fails(project, p, m) && forall|
                k: int,
                m2: Seq<char>,
            | 0 <= k < p ==> !#[trigger] pattern_fails(project, k, m2)
    }
}

/// No constructor and no pattern makes the layout build fail.
pub open spec fn variant_sites_fit(project: CheckedProject) -> bool {
    &&& forall|e: int, m: Seq<char>|
        0 <= e < project.hir.exprs@.len() ==> !#[trigger] constructor_fails(project, e, m)
    &&& forall|p: int, m: Seq<char>|
        0 <= p < project.hir.pats@.len() ==> !#[trigger] pattern_fails(project, p, m)
}

/// Checked layouts of named variant constructors and patterns.
pub struct NamedVariantLayoutTable {
    layouts: Vec<Option<NamedVariantLayout>>,
    patterns: Vec<Option<NamedVariantPatternLayout>>,
}

impl NamedVariantLayoutTable {
    /// The layouts, by expression.
    pub closed spec fn layouts(&self) -> Seq<Option<NamedVariantLayout>> {
        self.layouts@
    }

    /// The pattern layouts, by pattern.
    pub closed spec fn patterns(&self) -> Seq<Option<NamedVariantPatternLayout>> {
        self.patterns@
    }

    /// The layout of the constructor at `expr`.
    pub fn get(&self, expr: HirExprId) -> (r: Option<&NamedVariantLayout>)
        ensures
            expr.0 < self.layouts().len() && self.layouts()[expr.0 as int] is Some ==> r == Some(
                &self.layouts()[expr.0 as int]->0,
            ),
            !(expr.0 < self.layouts().len() && self.layouts()[expr.0 as int] is Some) ==> r is None,
    {
        let i = expr.0 as usize;
        if i < self.layouts.len() {
            match &self.layouts[i] {
                Some(l) => Some(l),
                None => None,
            }
        } else {
            None
        }
    }

    /// The layout of the pattern at `pat`.
    pub fn pattern(&self, pat: HirPatId) -> (r: Option<&NamedVariantPatternLayout>)
        ensures
            pat.0 < self.patterns().len() && self.patterns()[pat.0 as int] is Some ==> r == Some(
                &self.patterns()[pat.0 as int]->0,
            ),
            !(pat.0 < self.patterns().len() && self.patterns()[pat.0 as int] is Some) ==> r is None,
    {
        let i = pat.0 as usize;
        if i < self.patterns.len() {
            match &self.patterns[i] {
                Some(l) => Some(l),
                None => None,
            }
        } else {
            None
        }
    }

    /// Lays out every named variant constructor and pattern of the program.
    pub fn build(project: &CheckedProject) -> (r: Result<Self, String>)
        ensures
            match r {
                Ok(table) => {
                    &&& variant_sites_fit(*project)
                    &&& table.layouts().len() == project.hir.exprs@.len()
                    &&& table.patterns().len() == project.hir.pats@.len()
                    &&& forall|e: int|
                        0 <= e < project.hir.exprs@.len() ==> match #[trigger] variant_constructor(
                            *project,
                            e,
                        ) {
                            Some((s, declared)) => table.layouts()[e] matches Some(l) && l.symbol()
                                == s && l.declared() == declared && l.source() == constructor_source(
                                *project,
                                e,
                            ) && layout_fits(declared, constructor_source(*project, e)),
                            None => table.layouts()[e] is None,
                        }
                    &&& forall|p: int|
                        0 <= p < project.hir.pats@.len() ==> match #[trigger] variant_pattern(
                            *project,
                            p,
                        ) {
                            Some((s, declared)) => table.patterns()[p] matches Some(l) && l.symbol
                                == s && l.name@ == project.symbols@[s.0 as int].name@ && l.arity
                                == declared.len() && l.fields@ == pattern_bindings(
                                declared,
                                pattern_fields(*project, p),
                            ),
                            None => table.patterns()[p] is None,
                        }
                },
                Err(m) => variant_site_error(*project, m@),
            },
    {
        let n = project.hir.exprs.len();
        let nsym = project.symbols.len();
        let mut layouts: Vec<Option<NamedVariantLayout>> = Vec::new();
        for e in 0..n
            invariant
                n == project.hir.exprs@.len(),
                nsym == project.symbols@.len(),
                layouts@.len() == e,
                forall|k: int, m: Seq<char>| 0 <= k < e ==> !#[trigger] constructor_fails(*project, k, m),
                forall|k: int|
                    0 <= k < e ==> match #[trigger] variant_constructor(*project, k) {
                        Some((s, declared)) => layouts@[k] matches Some(l) && l.symbol() == s
                            && l.declared() == declared && l.source() == constructor_source(
                            *project,
                            k,
                        ) && layout_fits(declared, constructor_source(*project, k)),
                        None => layouts@[k] is None,
                    },
        {
            let mut entry: Option<NamedVariantLayout> = None;
            if let HirExpr::Record(record) = &project.hir.exprs[e] {
                if let Some(path) = &record.path {
                    if let ResolveResult::Resolved(symbol) = path.resolution {
                        match variant_declaration(project, symbol, false) {
                            Err(m) => {
                                proof {
                                    assert(constructor_fails(*project, e as int, m@));
                                    assert(variant_site_error(*project, m@));
                                }
                                return Err(m);
                            },
                            Ok(None) => {},
                            Ok(Some(names)) => {
                                let source = field_init_names_of(&record.fields);
                                match NamedVariantLayout::build(symbol, names.as_slice(), source) {
                                    Ok(layout) => {
                                        entry = Some(layout);
                                    },
                                    Err(m) => {
                                        proof {
                                            assert(constructor_fails(*project, e as int, m@));
                                            assert(variant_site_error(*project, m@));
                                        }
                                        return Err(m);
                                    },
                                }
                            },
                        }
                    }
                }
            }
            proof {
                assert forall|m: Seq<char>| !#[trigger] constructor_fails(*project, e as int, m) by {}
            }
            layouts.push(entry);
        }
        let np = project.hir.pats.len();
        let mut patterns: Vec<Option<NamedVariantPatternLayout>> = Vec::new();
        for p in 0..np
            invariant
                np == project.hir.pats@.len(),
                nsym == project.symbols@.len(),
                patterns@.len() == p,
                forall|k: int, m: Seq<char>| 0 <= k < p ==> !#[trigger] pattern_fails(*project, k, m),
                n == project.hir.exprs@.len(),
                forall|k: int, m: Seq<char>| 0 <= k < n ==> !#[trigger] constructor_fails(*project, k, m),
                forall|k: int|
                    0 <= k < p ==> match #[trigger] variant_pattern(*project, k) {
                        Some((s, declared)) => patterns@[k] matches Some(l) && l.symbol == s
                            && l.name@ == project.symbols@[s.0 as int].name@ && l.arity
                            == declared.len() && l.fields@ == pattern_bindings(
                            declared,
                            pattern_fields(*project, k),
                        ),
                        None => patterns@[k] is None,
                    },
        {
            let mut entry: Option<NamedVariantPatternLayout> = None;
            if let HirPat::Record { path: Some(path), fields } = &project.hir.pats[p] {
                if let ResolveResult::Resolved(symbol) = path.resolution {
                    match variant_declaration(project, symbol, true) {
                        Err(m) => {
                            proof {
                                assert(pattern_fails(*project, p as int, m@));
                                assert(variant_site_error(*project, m@));
                            }
                            return Err(m);
                        },
                        Ok(None) => {},
                        Ok(Some(names)) => {
                            let data = project.symbols.get(symbol).unwrap();
                            match NamedVariantPatternLayout::build(
                                symbol,
                                data.name.as_str(),
                                names.as_slice(),
                                fields.as_slice(),
                            ) {
                                Ok(layout) => {
                                    entry = Some(layout);
                                },
                                Err(m) => {
                                    proof {
                                        assert(pattern_fails(*project, p as int, m@));
                                        assert(variant_site_error(*project, m@));
                                    }
                                    return Err(m);
                                },
                            }
                        },
                    }
                }
            }
            proof {
                assert forall|m: Seq<char>| !#[trigger] pattern_fails(*project, p as int, m) by {}
            }
            patterns.push(entry);
        }
        Ok(NamedVariantLayoutTable { layouts, patterns })
    }
}

/// Looks up the declared fields of the variant that `symbol` names: `None` when
/// it names no variant.
fn variant_declaration(project: &CheckedProject, symbol: SymbolId, pattern: bool) -> (r: Result<
    Option<Vec<String>>,
    String,
>)
    ensures
        match r {
            Err(m) => site_lookup_error(*project, symbol, pattern) == Some(m@),
            Ok(found) => {
                &&& site_lookup_error(*project, symbol, pattern) is None
                &&& symbol.0 < project.symbols@.len()
                &&& match variant_of(*project, symbol) {
                    Some((item, index)) => found matches Some(names) && names_of(names@)
                        == declared_fields(*project, item, index)->0,
                    None => found is None,
                }
            },
        },
{
    let data = match project.symbols.get(symbol) {
        Some(d) => d,
        None => {
            return Err(
                if pattern {
                    "record pattern has an invalid symbol".to_owned()
                } else {
                    "record constructor has an invalid symbol".to_owned()
                },
            );
        },
    };
    let (item, index) = match data.def {
        SymbolDef::EnumVariant { enum_item, variant_index } => (enum_item, variant_index),
        _ => return Ok(None),
    };
    let i = item.0 as usize;
    if i >= project.hir.items.len() {
        return Err(
            if pattern {
                "variant pattern has no enum declaration".to_owned()
            } else {
                "variant constructor has no enum declaration".to_owned()
            },
        );
    }
    match &project.hir.items[i] {
        HirItem::Enum(variants) => {
            let k = index as usize;
            if k < variants.len() {
                match &variants[k].field_names {
                    Some(names) => {
                        let copy = clone_names(names);
                        return Ok(Some(copy));
                    },
                    None => {},
                }
            }
            Err(
                if pattern {
                    "named variant pattern has no checked field declaration".to_owned()
                } else {
                    "named variant has no checked field declaration".to_owned()
                },
            )
        },
        _ => Err(
            if pattern {
                "variant pattern has no enum declaration".to_owned()
            } else {
                "variant constructor has no enum declaration".to_owned()
            },
        ),
    }
}

/// A copy of a list of names.
fn clone_names(names: &Vec<String>) -> (v: Vec<String>)
    ensures
        names_of(v@) == names_of(names@),
{
    let mut v: Vec<String> = Vec::new();
    for i in 0..names.len()
        invariant
            i <= names@.len(),
            v@.len() == i,
            forall|k: int| 0 <= k < i ==> (#[trigger] v@[k])@ == names@[k]@,
    {
        v.push(names[i].clone());
    }
    proof {
        assert(names_of(v@) =~= names_of(names@));
    }
    v
}

/// A constructor whose fields fit its declaration names every declared field exactly once:
/// its source names are a permutation of the declared names.
pub proof fn law_fitting_source_is_permutation(declared: Seq<Seq<char>>, source: Seq<Seq<char>>)
    requires
        layout_fits(declared, source),
    ensures
        source.len() == declared.len(),
        source.no_duplicates(),
        source.to_set() == declared.to_set(),
{
    assert forall|a: int, b: int| 0 <= a < source.len() && 0 <= b < source.len() && a != b implies source[a] != source[b] by {
        let (i, j) = if a < b { (a, b) } else { (b, a) };
        assert(!bad_source_field(declared, source, j));
        assert(source.take(j)[i] == source[i]);
    }
    assert forall|a: int, b: int| 0 <= a < declared.len() && 0 <= b < declared.len() && a != b implies declared[a] != declared[b] by {
        if a > b {
            assert(declared[b] != declared[a]);
        }
    }
    source.unique_seq_to_set();
    declared.unique_seq_to_set();
    assert(source.to_set().subset_of(declared.to_set())) by {
        assert forall|x: Seq<char>| source.to_set().contains(x) implies declared.to_set().contains(x) by {
            let k = choose|k: int| 0 <= k < source.len() && source[k] == x;
            assert(!bad_source_field(declared, source, k));
        }
    }
    vstd::set_lib::lemma_subset_equality(source.to_set(), declared.to_set());
}

} // verus!
