//! The canonical listing of a set of fact keys: its elements in increasing order.
use crate::conjunto::Clave;
use vstd::prelude::*;

verus! {

/// The lexicographic order on fact keys.
pub open spec fn menor(a: Clave, b: Clave) -> bool {
    a.0 < b.0 || (a.0 == b.0 && (a.1 < b.1 || (a.1 == b.1 && a.2 < b.2)))
}

/// Every element of `q` is smaller than the ones after it.
pub open spec fn creciente(q: Seq<Clave>) -> bool {
    forall|i: int, j: int| 0 <= i < j < q.len() ==> menor(#[trigger] q[i], #[trigger] q[j])
}

/// The elements of `s` in increasing order.
pub open spec fn ordenado(s: Set<Clave>) -> Seq<Clave> {
    choose|q: Seq<Clave>| creciente(q) && q.to_set() == s
}

fn es_menor(a: Clave, b: Clave) -> (r: bool)
    ensures
        r == menor(a, b),
{
    a.0 < b.0 || (a.0 == b.0 && (a.1 < b.1 || (a.1 == b.1 && a.2 < b.2)))
}

/// An increasing sequence holds no element twice and starts with its least element.
proof fn creciente_cabeza(q: Seq<Clave>)
    requires
        creciente(q),
        q.len() > 0,
    ensures
        !q.drop_first().contains(q[0]),
        q.drop_first().to_set() == q.to_set().remove(q[0]),
        creciente(q.drop_first()),
{
    let r = q.drop_first();
    if r.contains(q[0]) {
        let k = choose|k: int| 0 <= k < r.len() && r[k] == q[0];
        assert(menor(q[0], q[k + 1]));
    }
    assert forall|x: Clave| r.to_set().contains(x) <==> q.to_set().remove(q[0]).contains(x) by {
        if r.contains(x) {
            let k = choose|k: int| 0 <= k < r.len() && r[k] == x;
            assert(q[k + 1] == x);
        }
        if q.contains(x) && x != q[0] {
            let k = choose|k: int| 0 <= k < q.len() && q[k] == x;
            assert(r[k - 1] == x);
        }
    }
    assert(r.to_set() =~= q.to_set().remove(q[0]));
    assert forall|i: int, j: int| 0 <= i < j < r.len() implies menor(#[trigger] r[i], #[trigger] r[j]) by {
        assert(r[i] == q[i + 1] && r[j] == q[j + 1]);
    }
}

/// Two increasing sequences with the same elements are the same sequence.
pub proof fn creciente_unica(q1: Seq<Clave>, q2: Seq<Clave>)
    requires
        creciente(q1),
        creciente(q2),
        q1.to_set() == q2.to_set(),
    ensures
        q1 == q2,
    decreases q1.len(),
{
    if q1.len() == 0 {
        if q2.len() > 0 {
            assert(q2.to_set().contains(q2[0]));
        }
        assert(q1 =~= q2);
    } else if q2.len() == 0 {
        assert(q1.to_set().contains(q1[0]));
    } else {
        assert(q1.to_set().contains(q1[0]));
        assert(q2.to_set().contains(q2[0]));
        let j = choose|j: int| 0 <= j < q2.len() && q2[j] == q1[0];
        let k = choose|k: int| 0 <= k < q1.len() && q1[k] == q2[0];
        if j > 0 && k > 0 {
            assert(menor(q2[0], q2[j]));
            assert(menor(q1[0], q1[k]));
        } else if j > 0 {
            assert(menor(q2[0], q2[j]));
        } else if k > 0 {
            assert(menor(q1[0], q1[k]));
        }
        assert(q1[0] == q2[0]);
        creciente_cabeza(q1);
        creciente_cabeza(q2);
        creciente_unica(q1.drop_first(), q2.drop_first());
        assert(q1 =~= seq![q1[0]] + q1.drop_first());
        assert(q2 =~= seq![q2[0]] + q2.drop_first());
    }
}

/// A finite nonempty set of keys has a least element.
proof fn existe_minimo(s: Set<Clave>) -> (m: Clave)
    requires
        s.finite(),
        s.len() > 0,
    ensures
        s.contains(m),
        forall|y: Clave| s.contains(y) && y != m ==> menor(m, y),
    decreases s.len(),
{
    let x = s.choose();
    let resto = s.remove(x);
    if resto.len() == 0 {
        assert forall|y: Clave| s.contains(y) && y != x implies menor(x, y) by {
            assert(resto.contains(y));
        }
        x
    } else {
        let m = existe_minimo(resto);
        if menor(x, m) {
            x
        } else {
            m
        }
    }
}

/// Every finite set of keys can be listed in increasing order, and
/// `ordenado` is such a listing.
pub proof fn ordenado_existe(s: Set<Clave>)
    requires
        s.finite(),
    ensures
        creciente(ordenado(s)),
        ordenado(s).to_set() == s,
{
    let q = enumeracion_creciente(s);
    assert(creciente(q) && q.to_set() == s);
}

proof fn enumeracion_creciente(s: Set<Clave>) -> (q: Seq<Clave>)
    requires
        s.finite(),
    ensures
        creciente(q),
        q.to_set() == s,
    decreases s.len(),
{
    if s.len() == 0 {
        assert(s =~= Set::<Clave>::empty());
        let q = Seq::<Clave>::empty();
        assert(q.to_set() =~= s);
        q
    } else {
        let m = existe_minimo(s);
        let resto = s.remove(m);
        let q0 = enumeracion_creciente(resto);
        let q = seq![m] + q0;
        assert forall|i: int, j: int| 0 <= i < j < q.len() implies menor(#[trigger] q[i], #[trigger] q[j]) by {
            assert(q[j] == q0[j - 1]);
            assert(q0.to_set().contains(q0[j - 1]));
            if i > 0 {
                assert(q[i] == q0[i - 1]);
            }
        }
        assert forall|y: Clave| q.to_set().contains(y) <==> s.contains(y) by {
            if q.contains(y) {
                let k = choose|k: int| 0 <= k < q.len() && q[k] == y;
                if k > 0 {
                    assert(q0[k - 1] == y);
                    assert(q0.to_set().contains(y));
                }
            }
            if s.contains(y) {
                if y == m {
                    assert(q[0] == y);
                } else {
                    assert(q0.to_set().contains(y));
                    let k = choose|k: int| 0 <= k < q0.len() && q0[k] == y;
                    assert(q[k + 1] == y);
                }
            }
        }
        assert(q.to_set() =~= s);
        q
    }
}

/// The elements of `v` in increasing order.
pub(crate) fn ordena(v: &Vec<Clave>) -> (r: Vec<Clave>)
    requires
        v@.no_duplicates(),
    ensures
        r@ == ordenado(v@.to_set()),
        creciente(r@),
        r@.to_set() == v@.to_set(),
{
    let mut out: Vec<Clave> = Vec::new();
    let mut i: usize = 0;
    while i < v.len()
        invariant
            i <= v@.len(),
            v@.no_duplicates(),
            creciente(out@),
            out@.to_set() == v@.take(i as int).to_set(),
        decreases v@.len() - i,
    {
        let e = v[i];
        let mut p: usize = 0;
        while p < out.len() && !es_menor(e, out[p])
            invariant
                p <= out@.len(),
                forall|k: int| 0 <= k < p ==> !menor(e, #[trigger] out@[k]),
            decreases out@.len() - p,
        {
            p = p + 1;
        }
        proof {
            assert(!v@.take(i as int).contains(e)) by {
                if v@.take(i as int).contains(e) {
                    let k = choose|k: int| 0 <= k < i && v@.take(i as int)[k] == e;
                    assert(v@[k] == v@[i as int]);
                }
            }
            assert(!v@.take(i as int).to_set().contains(e));
            assert(!out@.contains(e)) by {
                if out@.contains(e) {
                    assert(out@.to_set().contains(e));
                }
            }
            assert forall|k: int| 0 <= k < p implies menor(#[trigger] out@[k], e) by {
                assert(out@[k] != e);
            }
        }
        let ghost antes = out@;
        out.insert(p, e);
        proof {
            assert(out@ == antes.insert(p as int, e));
            assert forall|a: int, b: int| 0 <= a < b < out@.len() implies menor(
                #[trigger] out@[a],
                #[trigger] out@[b],
            ) by {
                if b < p {
                    assert(out@[a] == antes[a] && out@[b] == antes[b]);
                } else if b == p {
                    assert(out@[a] == antes[a]);
                } else if a < p {
                    assert(out@[a] == antes[a] && out@[b] == antes[b - 1]);
                } else if a == p {
                    assert(out@[b] == antes[b - 1]);
                    if b - 1 > p {
                        assert(menor(antes[p as int], antes[b - 1]));
                    }
                } else {
                    assert(out@[a] == antes[a - 1] && out@[b] == antes[b - 1]);
                }
            }
            assert(v@.take(i + 1) =~= v@.take(i as int).push(e));
            v@.take(i as int).lemma_push_to_set_commute(e);
            assert forall|x: Clave| out@.to_set().contains(x) <==> antes.to_set().insert(e).contains(x) by {
                if out@.contains(x) {
                    let k = choose|k: int| 0 <= k < out@.len() && out@[k] == x;
                    if k < p {
                        assert(antes[k] == x);
                    } else if k > p {
                        assert(antes[k - 1] == x);
                    }
                }
                if antes.contains(x) {
                    let k = choose|k: int| 0 <= k < antes.len() && antes[k] == x;
                    if k < p {
                        assert(out@[k] == x);
                    } else {
                        assert(out@[k + 1] == x);
                    }
                }
                if x == e {
                    assert(out@[p as int] == e);
                }
            }
            assert(out@.to_set() =~= antes.to_set().insert(e));
        }
        i = i + 1;
    }
    proof {
        assert(v@.take(v@.len() as int) =~= v@);
        creciente_unica(out@, ordenado(v@.to_set()));
    }
    out
}

} // verus!
