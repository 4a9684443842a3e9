//! The order of field names: strings order by their UTF-8 bytes, lexicographically.
use vstd::prelude::*;
use vstd::utf8::{decode_utf8, encode_utf8};

use crate::variants::{distinct_names, names_of};

verus! {

/// Byte string `a` comes strictly before `b` in lexicographic order.
pub open spec fn bytes_before(a: Seq<u8>, b: Seq<u8>) -> bool
    decreases a.len(),
{
    if a.len() == 0 {
        b.len() > 0
    } else if b.len() == 0 {
        false
    } else if a[0] != b[0] {
        a[0] < b[0]
    } else {
        bytes_before(a.drop_first(), b.drop_first())
    }
}

/// Name `a` sorts strictly before name `b`.
pub open spec fn name_before(a: Seq<char>, b: Seq<char>) -> bool {
    bytes_before(encode_utf8(a), encode_utf8(b))
}

/// Names in strictly increasing order.
pub open spec fn names_increasing(v: Seq<Seq<char>>) -> bool {
    forall|i: int, j: int| 0 <= i < j < v.len() ==> name_before(#[trigger] v[i], #[trigger] v[j])
}

/// A common prefix does not change the order.
pub proof fn lemma_before_skip(a: Seq<u8>, b: Seq<u8>, i: int)
    requires
        0 <= i <= a.len(),
        i <= b.len(),
        a.take(i) == b.take(i),
    ensures
        bytes_before(a, b) == bytes_before(a.skip(i), b.skip(i)),
    decreases i,
{
    if i > 0 {
        assert(a[0] == a.take(i)[0]);
        assert(b[0] == b.take(i)[0]);
        assert(a.drop_first().take(i - 1) =~= a.take(i).drop_first());
        assert(b.drop_first().take(i - 1) =~= b.take(i).drop_first());
        lemma_before_skip(a.drop_first(), b.drop_first(), i - 1);
        assert(a.drop_first().skip(i - 1) =~= a.skip(i));
        assert(b.drop_first().skip(i - 1) =~= b.skip(i));
    } else {
        assert(a.skip(0) =~= a);
        assert(b.skip(0) =~= b);
    }
}

/// No byte string comes before itself, and of two strings at most one comes first.
pub proof fn lemma_before_asymmetric(a: Seq<u8>, b: Seq<u8>)
    ensures
        !bytes_before(a, a),
        bytes_before(a, b) ==> !bytes_before(b, a),
    decreases a.len(),
{
    if a.len() > 0 && b.len() > 0 {
        lemma_before_asymmetric(a.drop_first(), b.drop_first());
    }
    if a.len() > 0 {
        lemma_before_asymmetric(a.drop_first(), a.drop_first());
    }
}

/// The order is transitive.
pub proof fn lemma_before_transitive(a: Seq<u8>, b: Seq<u8>, c: Seq<u8>)
    requires
        bytes_before(a, b),
        bytes_before(b, c),
    ensures
        bytes_before(a, c),
    decreases a.len(),
{
    if a.len() > 0 && b.len() > 0 && c.len() > 0 && a[0] == b[0] && b[0] == c[0] {
        lemma_before_transitive(a.drop_first(), b.drop_first(), c.drop_first());
    }
}

/// Of two different byte strings, one comes first.
pub proof fn lemma_before_total(a: Seq<u8>, b: Seq<u8>)
    requires
        a != b,
    ensures
        bytes_before(a, b) || bytes_before(b, a),
    decreases a.len(),
{
    if a.len() > 0 && b.len() > 0 && a[0] == b[0] {
        if a.drop_first() == b.drop_first() {
            assert(a =~= seq![a[0]] + a.drop_first());
            assert(b =~= seq![b[0]] + b.drop_first());
        }
        lemma_before_total(a.drop_first(), b.drop_first());
    } else if a.len() == 0 && b.len() == 0 {
        assert(a =~= b);
    }
}

/// The order on names is a strict total order.
pub proof fn lemma_name_order(a: Seq<char>, b: Seq<char>, c: Seq<char>)
    ensures
        !name_before(a, a),
        name_before(a, b) ==> !name_before(b, a),
        name_before(a, b) && name_before(b, c) ==> name_before(a, c),
        a != b ==> name_before(a, b) || name_before(b, a),
{
    lemma_before_asymmetric(encode_utf8(a), encode_utf8(b));
    if name_before(a, b) && name_before(b, c) {
        lemma_before_transitive(encode_utf8(a), encode_utf8(b), encode_utf8(c));
    }
    if a != b {
        vstd::utf8::encode_utf8_decode_utf8(a);
        vstd::utf8::encode_utf8_decode_utf8(b);
        assert(decode_utf8(encode_utf8(a)) == a);
        lemma_before_total(encode_utf8(a), encode_utf8(b));
    }
}

/// Compares two names: negative when `a` comes first, zero when they are equal,
/// positive when `b` comes first.
pub fn compare_names(a: &str, b: &str) -> (r: i8)
    ensures
        r < 0 <==> name_before(a@, b@),
        r == 0 <==> a@ == b@,
        r > 0 <==> name_before(b@, a@),
{
    let x = a.as_bytes();
    let y = b.as_bytes();
    let ghost xs = encode_utf8(a@);
    let ghost ys = encode_utf8(b@);
    proof {
        assert(x@ == xs);
        assert(y@ == ys);
        lemma_name_order(a@, b@, a@);
        lemma_name_order(b@, a@, b@);
    }
    let n = x.len();
    let m = y.len();
    let mut i: usize = 0;
    while i < n && i < m && x[i] == y[i]
        invariant
            x@ == xs,
            y@ == ys,
            n == xs.len(),
            m == ys.len(),
            i <= n,
            i <= m,
            xs.take(i as int) == ys.take(i as int),
        decreases n - i,
    {
        proof {
            assert(xs.take(i + 1) =~= xs.take(i as int).push(xs[i as int]));
            assert(ys.take(i + 1) =~= ys.take(i as int).push(ys[i as int]));
        }
        i = i + 1;
    }
    proof {
        lemma_before_skip(xs, ys, i as int);
        lemma_before_skip(ys, xs, i as int);
        if i == n && i == m {
            assert(xs =~= xs.take(i as int));
            assert(ys =~= ys.take(i as int));
            vstd::utf8::encode_utf8_decode_utf8(a@);
            vstd::utf8::encode_utf8_decode_utf8(b@);
        }
        if i < n && i < m {
            assert(xs.skip(i as int)[0] == xs[i as int]);
            assert(ys.skip(i as int)[0] == ys[i as int]);
        }
    }
    if i < n && i < m {
        if x[i] < y[i] {
            -1
        } else {
            1
        }
    } else if i == n && i == m {
        0
    } else if i == n {
        -1
    } else {
        1
    }
}


/// The names of `names`, sorted, if no name occurs twice.
pub fn sorted_distinct(names: &Vec<String>) -> (r: Option<Vec<String>>)
    ensures
        match r {
            Some(v) => {
                &&& distinct_names(names_of(names@))
                &&& names_increasing(names_of(v@))
                &&& names_of(v@).to_set() == names_of(names@).to_set()
            },
            None => !distinct_names(names_of(names@)),
        },
{
    let mut out: Vec<String> = Vec::new();
    let n = names.len();
    for k in 0..n
        invariant
            n == names@.len(),
            names_increasing(names_of(out@)),
            names_of(out@).to_set() == names_of(names@.take(k as int)).to_set(),
            distinct_names(names_of(names@.take(k as int))),
    {
        let x = &names[k];
        let ghost xv = x@;
        let ghost ov = names_of(out@);
        let ghost prefix = names_of(names@.take(k as int));
        proof {
            assert(names_of(names@.take(k + 1)) =~= prefix.push(xv));
        }
        let m = out.len();
        let mut i: usize = 0;
        while i < m && compare_names(out[i].as_str(), x.as_str()) < 0
            invariant
                m == out@.len(),
                ov == names_of(out@),
                xv == x@,
                i <= m,
                forall|p: int| 0 <= p < i ==> name_before(#[trigger] ov[p], xv),
            decreases m - i,
        {
            proof {
                assert(ov[i as int] == out@[i as int]@);
            }
            i = i + 1;
        }
        if i < m && compare_names(out[i].as_str(), x.as_str()) == 0 {
            proof {
                assert(ov[i as int] == xv);
                assert(ov.to_set().contains(xv));
                assert(prefix.to_set().contains(xv));
                let j = choose|j: int| 0 <= j < prefix.len() && prefix[j] == xv;
                assert(names_of(names@)[j] == names_of(names@)[k as int]);
            }
            return None;
        }
        proof {
            if i < m {
                assert(ov[i as int] == out@[i as int]@);
                lemma_name_order(ov[i as int], xv, xv);
                assert(name_before(xv, ov[i as int]));
            }
            assert forall|p: int| 0 <= p < ov.len() implies ov[p] != xv by {
                lemma_name_order(xv, xv, xv);
                if p >= i {
                    if p > i {
                        lemma_name_order(xv, ov[i as int], ov[p]);
                    }
                }
            }
        }
        out.insert(i, x.clone());
        proof {
            let nv = names_of(out@);
            assert(nv =~= ov.insert(i as int, xv));
            assert forall|a: int, b: int| 0 <= a < b < nv.len() implies name_before(
                #[trigger] nv[a],
                #[trigger] nv[b],
            ) by {
                if b < i {
                } else if b == i {
                    assert(nv[a] == ov[a]);
                } else if a < i {
                    assert(nv[a] == ov[a] && nv[b] == ov[b - 1]);
                    if i < b - 1 {
                        lemma_name_order(ov[a], xv, ov[i as int]);
                        lemma_name_order(xv, ov[i as int], ov[b - 1]);
                    }
                    lemma_name_order(ov[a], xv, ov[b - 1]);
                    if i == b - 1 {
                    } else {
                        lemma_name_order(xv, ov[i as int], ov[b - 1]);
                    }
                } else if a == i {
                    assert(nv[b] == ov[b - 1]);
                    if i < b - 1 {
                        lemma_name_order(xv, ov[i as int], ov[b - 1]);
                    }
                } else {
                    assert(nv[a] == ov[a - 1] && nv[b] == ov[b - 1]);
                }
            }
            assert forall|y: Seq<char>| nv.to_set().contains(y) <==> prefix.push(xv).to_set().contains(y) by {
                if nv.contains(y) {
                    let q = choose|q: int| 0 <= q < nv.len() && nv[q] == y;
                    if q < i {
                        assert(ov[q] == y);
                        assert(ov.to_set().contains(y));
                        assert(prefix.to_set().contains(y));
                        let w = choose|w: int| 0 <= w < prefix.len() && prefix[w] == y;
                        assert(prefix.push(xv)[w] == y);
                    } else if q > i {
                        assert(ov[q - 1] == y);
                        assert(ov.to_set().contains(y));
                        assert(prefix.to_set().contains(y));
                        let w = choose|w: int| 0 <= w < prefix.len() && prefix[w] == y;
                        assert(prefix.push(xv)[w] == y);
                    } else {
                        assert(prefix.push(xv)[prefix.len() as int] == y);
                    }
                }
                if prefix.push(xv).contains(y) {
                    let q = choose|q: int| 0 <= q < prefix.push(xv).len() && prefix.push(xv)[q] == y;
                    if q < prefix.len() {
                        assert(prefix[q] == y);
                        assert(prefix.to_set().contains(y));
                        assert(ov.to_set().contains(y));
                        let w = choose|w: int| 0 <= w < ov.len() && ov[w] == y;
                        if w < i {
                            assert(nv[w] == y);
                        } else {
                            assert(nv[w + 1] == y);
                        }
                    } else {
                        assert(nv[i as int] == y);
                    }
                }
            }
            assert(nv.to_set() =~= prefix.push(xv).to_set());
            assert forall|a: int, b: int| 0 <= a < b < prefix.push(xv).len() implies prefix.push(xv)[a]
                != prefix.push(xv)[b] by {
                if b == prefix.len() {
                    assert(prefix.to_set().contains(prefix[a]));
                    assert(ov.to_set().contains(prefix[a]));
                }
            }
        }
    }
    proof {
        assert(names@.take(n as int) =~= names@);
    }
    Some(out)
}

} // verus!
