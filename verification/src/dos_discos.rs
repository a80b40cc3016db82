//! The search on the puzzle with two disks, followed step by step over every
//! order in which the hash sets may be walked: it always returns the three
//! moves that solve it.
use crate::accion::{candidatos_sobre, destinos, disco_encima, posibilidades_validas, Apilar, Meta};
use crate::conjunto::{Clave, Codigo};
use crate::stackeable::Stackeable;
use crate::strips::{
    aplicado, con_metas, con_prerrequisitos, con_tope, expansion, paso_doble, paso_final,
    paso_forzado, puede_devolver, sin_meta,
};
use crate::stripsstate::{clave_identifica_estado, clave_vista, objetivo_debajo, EstadoVista};
use vstd::prelude::*;

verus! {

/// The three moves that solve the puzzle with two disks.
pub open spec fn solucion_dos() -> Seq<Apilar> {
    seq![
        Apilar { x: 1i8, y: 2i8, z: -2i8 },
        Apilar { x: 2i8, y: -1i8, z: -3i8 },
        Apilar { x: 1i8, y: -2i8, z: 2i8 },
    ]
}

spec fn mov_a1() -> Apilar {
    Apilar { x: 2i8, y: -1i8, z: -3i8 }
}

spec fn mov_b2() -> Apilar {
    Apilar { x: 1i8, y: 2i8, z: -2i8 }
}

spec fn mov_b3() -> Apilar {
    Apilar { x: 1i8, y: 2i8, z: -3i8 }
}

spec fn mov_c() -> Apilar {
    Apilar { x: 1i8, y: -2i8, z: 2i8 }
}

spec fn g1() -> Stackeable {
    Stackeable::Objetivo(Meta::Sobre(1i8, 2i8))
}

spec fn g2() -> Stackeable {
    Stackeable::Objetivo(Meta::Sobre(2i8, -3i8))
}

spec fn om() -> Stackeable {
    Stackeable::Objetivo(Meta::Menor(2i8, -3i8))
}

spec fn os() -> Stackeable {
    Stackeable::Objetivo(Meta::Sobre(2i8, -1i8))
}

spec fn od2() -> Stackeable {
    Stackeable::Objetivo(Meta::Despejado(2i8))
}

spec fn od3() -> Stackeable {
    Stackeable::Objetivo(Meta::Despejado(-3i8))
}

/// The facts at the start with two disks.
spec fn r0() -> Set<Clave> {
    set![
        Meta::Despejado(1i8).clave(),
        Meta::Despejado(-2i8).clave(),
        Meta::Despejado(-3i8).clave(),
        Meta::Menor(1i8, 2i8).clave(),
        Meta::Menor(1i8, -1i8).clave(),
        Meta::Menor(1i8, -2i8).clave(),
        Meta::Menor(1i8, -3i8).clave(),
        Meta::Menor(2i8, -1i8).clave(),
        Meta::Menor(2i8, -2i8).clave(),
        Meta::Menor(2i8, -3i8).clave(),
        Meta::Sobre(1i8, 2i8).clave(),
        Meta::Sobre(2i8, -1i8).clave(),
    ]
}

/// The starting facts with two disks, listed.
proof fn r0_exacto()
    ensures
        crate::recursos_iniciales(2) == r0(),
{
    let r = crate::recursos_iniciales(2);
    assert forall|k: Clave| r.contains(k) <==> r0().contains(k) by {
        if r.contains(k) {
            let m = choose|m: Meta| crate::hechos_iniciales(2).contains(m) && m.clave() == k;
        }
        if r0().contains(k) {
            let m = if k.0 == 0 {
                Meta::Sobre(k.1, k.2)
            } else if k.0 == 1 {
                Meta::Menor(k.1, k.2)
            } else {
                Meta::Despejado(k.1)
            };
            assert(m.clave() == k);
            assert(crate::hechos_iniciales(2).contains(m));
        }
    }
    assert(r =~= r0());
}

/// States with different goal stacks or different facts have different keys.
proof fn distintas(a: EstadoVista, b: EstadoVista)
    requires
        a.recursos.finite(),
        b.recursos.finite(),
        a.pila != b.pila || a.recursos != b.recursos,
    ensures
        clave_vista(a) != clave_vista(b),
{
    clave_identifica_estado(a, b);
}

/// A sequence without repeats that holds exactly one move is that move.
proof fn sec_unitaria(p: Seq<Apilar>, a: Apilar)
    requires
        p.no_duplicates(),
        p.to_set() == set![a],
    ensures
        p == seq![a],
{
    assert(p.to_set().contains(a));
    if p.len() >= 2 {
        assert(p.to_set().contains(p[0]));
        assert(p.to_set().contains(p[1]));
    }
    assert(p.to_set().contains(p[0]));
    assert(p =~= seq![a]);
}

/// A sequence without repeats that holds exactly two moves lists them in one order or the other.
proof fn sec_doble(p: Seq<Apilar>, a: Apilar, b: Apilar)
    requires
        a != b,
        p.no_duplicates(),
        p.to_set() == set![a, b],
    ensures
        p == seq![a, b] || p == seq![b, a],
{
    assert(p.to_set().contains(a));
    assert(p.to_set().contains(b));
    let i = choose|i: int| 0 <= i < p.len() && p[i] == a;
    let j = choose|j: int| 0 <= j < p.len() && p[j] == b;
    if p.len() >= 3 {
        assert(p.to_set().contains(p[0]));
        assert(p.to_set().contains(p[1]));
        assert(p.to_set().contains(p[2]));
    }
    if p[0] == a {
        assert(p =~= seq![a, b]);
    } else {
        assert(p =~= seq![b, a]);
    }
}

/// A sequence that holds no move is empty.
proof fn sec_vacia(p: Seq<Apilar>)
    requires
        p.to_set() == Set::<Apilar>::empty(),
    ensures
        p == Seq::<Apilar>::empty(),
{
    if p.len() > 0 {
        assert(p.to_set().contains(p[0]));
    }
    assert(p =~= Seq::<Apilar>::empty());
}

spec fn acc(a: Apilar) -> Stackeable {
    Stackeable::Accion(a)
}

spec fn conj() -> Stackeable {
    Stackeable::Conjuncion([2i8, -3i8])
}

spec fn ev(pila: Seq<Stackeable>, recursos: Set<Clave>, solucion: Seq<Apilar>) -> EstadoVista {
    EstadoVista { pila, recursos, solucion }
}

spec fn r1() -> Set<Clave> {
    mov_b3().efecto(r0())
}

spec fn r2() -> Set<Clave> {
    mov_b2().efecto(r0())
}

spec fn r3() -> Set<Clave> {
    mov_a1().efecto(r2())
}

spec fn r4() -> Set<Clave> {
    mov_c().efecto(r3())
}

spec fn pila_s3b() -> Seq<Stackeable> {
    seq![g1(), g2(), acc(mov_a1()), om(), os(), od3(), od2()]
}

spec fn s0() -> EstadoVista {
    ev(seq![g1(), g2()], r0(), seq![])
}

spec fn s1() -> EstadoVista {
    ev(seq![g1(), g2(), acc(mov_a1())], r0(), seq![])
}

spec fn s2() -> EstadoVista {
    ev(seq![g1(), g2(), acc(mov_a1()), om(), os(), conj()], r0(), seq![])
}

spec fn s3a() -> EstadoVista {
    ev(seq![g1(), g2(), acc(mov_a1()), om(), os(), od2(), od3()], r0(), seq![])
}

spec fn s3b() -> EstadoVista {
    ev(pila_s3b(), r0(), seq![])
}

spec fn t(b: Apilar) -> EstadoVista {
    ev(pila_s3b().push(acc(b)), r0(), seq![])
}

spec fn u1() -> EstadoVista {
    ev(pila_s3b(), r1(), seq![mov_b3()])
}

spec fn u2() -> EstadoVista {
    ev(seq![g1(), g2(), acc(mov_a1()), om(), os(), od3()], r1(), seq![mov_b3()])
}

spec fn w1() -> EstadoVista {
    ev(pila_s3b(), r2(), seq![mov_b2()])
}

spec fn w2() -> EstadoVista {
    ev(seq![g1(), g2(), acc(mov_a1()), om(), os(), od3()], r2(), seq![mov_b2()])
}

spec fn w3() -> EstadoVista {
    ev(seq![g1(), g2(), acc(mov_a1()), om(), os()], r2(), seq![mov_b2()])
}

spec fn w4() -> EstadoVista {
    ev(seq![g1(), g2(), acc(mov_a1()), om()], r2(), seq![mov_b2()])
}

spec fn w5() -> EstadoVista {
    ev(seq![g1(), g2(), acc(mov_a1())], r2(), seq![mov_b2()])
}

spec fn w6() -> EstadoVista {
    ev(seq![g1(), g2()], r3(), seq![mov_b2(), mov_a1()])
}

spec fn w7() -> EstadoVista {
    ev(seq![g1()], r3(), seq![mov_b2(), mov_a1()])
}

spec fn w8() -> EstadoVista {
    ev(seq![g1(), acc(mov_c())], r3(), seq![mov_b2(), mov_a1()])
}

spec fn w9() -> EstadoVista {
    ev(seq![g1()], r4(), seq![mov_b2(), mov_a1(), mov_c()])
}

spec fn w10() -> EstadoVista {
    ev(seq![], r4(), seq![mov_b2(), mov_a1(), mov_c()])
}

/// States with goal stacks of different lengths have different keys.
proof fn longitudes(a: EstadoVista, b: EstadoVista)
    requires
        a.pila.len() != b.pila.len(),
    ensures
        clave_vista(a) != clave_vista(b),
{
    assert(clave_vista(a).0.len() == a.pila.len());
    assert(clave_vista(b).0.len() == b.pila.len());
}

/// The keys of the states visited before the move of disk 1 onto peg -2 is tried.
spec fn vistos() -> Set<(Seq<Codigo>, Seq<Clave>)> {
    set![
        clave_vista(s0()),
        clave_vista(s1()),
        clave_vista(s2()),
        clave_vista(s3b()),
        clave_vista(t(mov_b3())),
        clave_vista(u1()),
        clave_vista(u2()),
    ]
}

/// Keys of the states met after disk 1 went onto peg -2, told apart from the
/// keys visited before.
proof fn claves_nuevas()
    ensures
        !vistos().contains(clave_vista(t(mov_b2()))),
        !vistos().contains(clave_vista(w1())),
        !vistos().contains(clave_vista(w2())),
        !vistos().contains(clave_vista(w3())),
        !vistos().contains(clave_vista(w4())),
        !vistos().contains(clave_vista(w5())),
        !vistos().contains(clave_vista(w6())),
        !vistos().contains(clave_vista(w7())),
        !vistos().contains(clave_vista(w8())),
        !vistos().contains(clave_vista(w9())),
        clave_vista(w1()) != clave_vista(t(mov_b2())),
        clave_vista(w8()) != clave_vista(w6()),
        clave_vista(w9()) != clave_vista(w7()),
{
    let todos = seq![
        s0(),
        s1(),
        s2(),
        s3b(),
        t(mov_b3()),
        u1(),
        u2(),
        t(mov_b2()),
        w1(),
        w2(),
        w3(),
        w4(),
        w5(),
        w6(),
        w7(),
        w8(),
        w9(),
    ];
    // the facts that tell states of equal goal stacks apart
    assert(r0().contains(Meta::Sobre(1i8, 2i8).clave()));
    assert(!r1().contains(Meta::Sobre(1i8, -2i8).clave()));
    assert(r2().contains(Meta::Sobre(1i8, -2i8).clave()));
    assert(!r2().contains(Meta::Sobre(1i8, 2i8).clave()));
    assert(r3().contains(Meta::Sobre(2i8, -3i8).clave()));
    assert(!r0().contains(Meta::Sobre(2i8, -3i8).clave()));
    assert(r4().contains(Meta::Sobre(1i8, 2i8).clave()));
    assert(!r3().contains(Meta::Sobre(1i8, 2i8).clave()));
    // goal stacks of equal length that differ
    assert(t(mov_b2()).pila[7] != t(mov_b3()).pila[7]);
    assert(w2().pila[5] != s2().pila[5]);
    assert(w8().pila[1] != w6().pila[1]);
    assert(w8().pila[1] != s0().pila[1]);
    distintas(t(mov_b2()), t(mov_b3()));
    distintas(w1(), s3b());
    distintas(w1(), u1());
    distintas(w2(), s2());
    distintas(w2(), u2());
    distintas(w5(), s1());
    distintas(w6(), s0());
    distintas(w8(), s0());
    distintas(w8(), w6());
    distintas(w9(), w7());
    assert forall|i: int, j: int|
        0 <= i < 7 <= j < 17 && todos[i].pila.len() != todos[j].pila.len() implies clave_vista(
            #[trigger] todos[i],
        ) != clave_vista(#[trigger] todos[j]) by {
        longitudes(todos[i], todos[j]);
    }
    assert(todos[0] == s0() && todos[1] == s1() && todos[2] == s2() && todos[3] == s3b());
    assert(todos[4] == t(mov_b3()) && todos[5] == u1() && todos[6] == u2());
    assert(todos[7] == t(mov_b2()) && todos[8] == w1() && todos[9] == w2() && todos[10] == w3());
    assert(todos[11] == w4() && todos[12] == w5() && todos[13] == w6() && todos[14] == w7());
    assert(todos[15] == w8() && todos[16] == w9());
    longitudes(w1(), t(mov_b2()));
}

/// From the state with the move of disk 1 onto peg -2 on top, the search
/// carries out that move, pops the goals that now hold, moves disk 2, and
/// puts disk 1 back on disk 2.
proof fn tramo_final(
    base: Seq<EstadoVista>,
    vis: Set<(Seq<Codigo>, Seq<Clave>)>,
    k: nat,
    vr: Option<EstadoVista>,
)
    requires
        k >= 20,
        vis.subset_of(vistos()),
        puede_devolver(base.push(t(mov_b2())), vis, k, vr),
    ensures
        vr == Some(w10()),
{
    claves_nuevas();
    let b2 = mov_b2();
    let a1 = mov_a1();
    let c = mov_c();

    // the move of disk 1 onto peg -2 is executable
    let p = base.push(t(b2));
    assert(p.last() == t(b2));
    assert(p.drop_last() =~= base);
    assert(t(b2).pila.last() == acc(b2));
    assert forall|i: int| 0 <= i < 4 implies r0().contains(#[trigger] b2.precondiciones()[i].clave()) by {}
    assert(aplicado(b2, t(b2)) == w1()) by {
        assert(aplicado(b2, t(b2)).pila =~= w1().pila);
    }
    paso_forzado(p, vis, k, vr, base.push(w1()));
    let vis = vis.insert(clave_vista(t(b2)));

    // disk 2 is clear now
    let p = base.push(w1());
    assert(p.last() == w1());
    assert(p.drop_last() =~= base);
    assert(w1().pila.last() == od2());
    assert(r2().contains(Meta::Despejado(2i8).clave()));
    assert(sin_meta(w1()) == w2()) by {
        assert(sin_meta(w1()).pila =~= w2().pila);
    }
    paso_forzado(p, vis, (k - 1) as nat, vr, base.push(w2()));
    let vis = vis.insert(clave_vista(w1()));

    // peg -3 is clear
    let p = base.push(w2());
    assert(p.last() == w2());
    assert(p.drop_last() =~= base);
    assert(w2().pila.last() == od3());
    assert(r2().contains(Meta::Despejado(-3i8).clave()));
    assert(sin_meta(w2()) == w3()) by {
        assert(sin_meta(w2()).pila =~= w3().pila);
    }
    longitudes(w2(), t(b2));
    longitudes(w2(), w1());
    paso_forzado(p, vis, (k - 2) as nat, vr, base.push(w3()));
    let vis = vis.insert(clave_vista(w2()));

    // disk 2 lies on peg -1
    let p = base.push(w3());
    assert(p.last() == w3());
    assert(p.drop_last() =~= base);
    assert(w3().pila.last() == os());
    assert(r2().contains(Meta::Sobre(2i8, -1i8).clave()));
    assert(sin_meta(w3()) == w4()) by {
        assert(sin_meta(w3()).pila =~= w4().pila);
    }
    longitudes(w3(), t(b2));
    longitudes(w3(), w1());
    longitudes(w3(), w2());
    paso_forzado(p, vis, (k - 3) as nat, vr, base.push(w4()));
    let vis = vis.insert(clave_vista(w3()));

    // disk 2 is smaller than peg -3
    let p = base.push(w4());
    assert(p.last() == w4());
    assert(p.drop_last() =~= base);
    assert(w4().pila.last() == om());
    assert(r2().contains(Meta::Menor(2i8, -3i8).clave()));
    assert(sin_meta(w4()) == w5()) by {
        assert(sin_meta(w4()).pila =~= w5().pila);
    }
    longitudes(w4(), t(b2));
    longitudes(w4(), w1());
    longitudes(w4(), w2());
    longitudes(w4(), w3());
    paso_forzado(p, vis, (k - 4) as nat, vr, base.push(w5()));
    let vis = vis.insert(clave_vista(w4()));

    // the move of disk 2 onto peg -3 is executable now
    let p = base.push(w5());
    assert(p.last() == w5());
    assert(p.drop_last() =~= base);
    assert(w5().pila.last() == acc(a1));
    assert forall|i: int| 0 <= i < 4 implies r2().contains(#[trigger] a1.precondiciones()[i].clave()) by {}
    assert(aplicado(a1, w5()) == w6()) by {
        assert(aplicado(a1, w5()).pila =~= w6().pila);
        assert(aplicado(a1, w5()).solucion =~= w6().solucion);
    }
    longitudes(w5(), t(b2));
    longitudes(w5(), w1());
    longitudes(w5(), w2());
    longitudes(w5(), w3());
    longitudes(w5(), w4());
    paso_forzado(p, vis, (k - 5) as nat, vr, base.push(w6()));
    let vis = vis.insert(clave_vista(w5()));

    // disk 2 lies on peg -3
    let p = base.push(w6());
    assert(p.last() == w6());
    assert(p.drop_last() =~= base);
    assert(w6().pila.last() == g2());
    assert(r3().contains(Meta::Sobre(2i8, -3i8).clave()));
    assert(sin_meta(w6()) == w7()) by {
        assert(sin_meta(w6()).pila =~= w7().pila);
    }
    longitudes(w6(), t(b2));
    longitudes(w6(), w1());
    longitudes(w6(), w2());
    longitudes(w6(), w3());
    longitudes(w6(), w4());
    longitudes(w6(), w5());
    paso_forzado(p, vis, (k - 6) as nat, vr, base.push(w7()));
    let vis = vis.insert(clave_vista(w6()));

    // disk 1 must go back onto disk 2: the only move for it
    let p = base.push(w7());
    assert(p.last() == w7());
    assert(p.drop_last() =~= base);
    assert(w7().pila.last() == g1());
    assert(!r3().contains(Meta::Sobre(1i8, 2i8).clave()));
    assert(!objetivo_debajo(w7().pila, Meta::Sobre(1i8, 2i8)));
    assert(crate::accion::ultimo_movido(w7().solucion) == 2);
    assert forall|b: Apilar| #[trigger] candidatos_sobre(1i8, 2i8, 2i8, r3()).contains(b) <==> b == c by {}
    assert(candidatos_sobre(1i8, 2i8, 2i8, r3()) =~= set![c]);
    assert forall|e: Seq<EstadoVista>| #[trigger] expansion(base, w7(), e) implies e == base.push(w8()) by {
        let q = choose|q: Seq<Apilar>|
            #[trigger] posibilidades_validas(Meta::Sobre(1i8, 2i8), w7(), q) && e == base + q.map_values(
                |a: Apilar| con_tope(w7(), Stackeable::Accion(a)),
            );
        sec_unitaria(q, c);
        assert(con_tope(w7(), acc(c)) == w8()) by {
            assert(con_tope(w7(), acc(c)).pila =~= w8().pila);
        }
        assert(e =~= base.push(w8()));
    }
    longitudes(w7(), t(b2));
    longitudes(w7(), w1());
    longitudes(w7(), w2());
    longitudes(w7(), w3());
    longitudes(w7(), w4());
    longitudes(w7(), w5());
    longitudes(w7(), w6());
    paso_forzado(p, vis, (k - 7) as nat, vr, base.push(w8()));
    let vis = vis.insert(clave_vista(w7()));

    // the move of disk 1 onto disk 2 is executable
    let p = base.push(w8());
    assert(p.last() == w8());
    assert(p.drop_last() =~= base);
    assert(w8().pila.last() == acc(c));
    assert forall|i: int| 0 <= i < 4 implies r3().contains(#[trigger] c.precondiciones()[i].clave()) by {}
    assert(aplicado(c, w8()) == w9()) by {
        assert(aplicado(c, w8()).pila =~= w9().pila);
        assert(aplicado(c, w8()).solucion =~= w9().solucion);
    }
    longitudes(w8(), t(b2));
    longitudes(w8(), w1());
    longitudes(w8(), w2());
    longitudes(w8(), w3());
    longitudes(w8(), w4());
    longitudes(w8(), w5());
    longitudes(w8(), w7());
    paso_forzado(p, vis, (k - 8) as nat, vr, base.push(w9()));
    let vis = vis.insert(clave_vista(w8()));

    // disk 1 lies on disk 2
    let p = base.push(w9());
    assert(p.last() == w9());
    assert(p.drop_last() =~= base);
    assert(w9().pila.last() == g1());
    assert(r4().contains(Meta::Sobre(1i8, 2i8).clave()));
    assert(sin_meta(w9()) == w10()) by {
        assert(sin_meta(w9()).pila =~= w10().pila);
    }
    longitudes(w9(), t(b2));
    longitudes(w9(), w1());
    longitudes(w9(), w2());
    longitudes(w9(), w3());
    longitudes(w9(), w4());
    longitudes(w9(), w5());
    longitudes(w9(), w6());
    longitudes(w9(), w8());
    paso_forzado(p, vis, (k - 9) as nat, vr, base.push(w10()));
    let vis = vis.insert(clave_vista(w9()));

    // no goal is left
    let p = base.push(w10());
    assert(p.last() == w10());
    paso_final(p, vis, (k - 10) as nat, vr);
}

/// With two disks, every search that the steps of `paso` allow returns the
/// state reached by the three moves of `solucion_dos`, whatever order the
/// hash sets are walked in.
pub proof fn dos_discos(s: EstadoVista, vr: Option<EstadoVista>)
    requires
        s.pila == crate::objetivos_iniciales(2),
        s.recursos == crate::recursos_iniciales(2),
        s.solucion == Seq::<Apilar>::empty(),
        puede_devolver(seq![s], Set::empty(), u64::MAX as nat, vr),
    ensures
        vr is Some,
        vr->0.pila.len() == 0,
        vr->0.solucion == solucion_dos(),
        vr->0.recursos.contains(Meta::Sobre(1i8, 2i8).clave()),
        vr->0.recursos.contains(Meta::Sobre(2i8, -3i8).clave()),
{
    r0_exacto();
    let k = u64::MAX as nat;
    let a1 = mov_a1();
    let b2 = mov_b2();
    let b3 = mov_b3();
    assert(crate::metas_finales(2) =~= seq![Meta::Sobre(1i8, 2i8), Meta::Sobre(2i8, -3i8)]);
    assert(s.pila =~= s0().pila);
    assert(s == s0());
    let vacia = Seq::<EstadoVista>::empty();
    let vis = Set::<(Seq<Codigo>, Seq<Clave>)>::empty();

    // the top goal becomes the only move of disk 2
    let p = seq![s0()];
    assert(p.last() == s0());
    assert(p.drop_last() =~= vacia);
    assert(!r0().contains(Meta::Sobre(2i8, -3i8).clave()));
    assert(!objetivo_debajo(s0().pila, Meta::Sobre(2i8, -3i8))) by {
        assert(s0().pila[0] == g1());
    }
    assert forall|b: Apilar| #[trigger] candidatos_sobre(2i8, -3i8, 0i8, r0()).contains(b) <==> b == a1 by {}
    assert(candidatos_sobre(2i8, -3i8, 0i8, r0()) =~= set![a1]);
    assert forall|e: Seq<EstadoVista>| #[trigger] expansion(vacia, s0(), e) implies e == seq![s1()] by {
        let q = choose|q: Seq<Apilar>|
            #[trigger] posibilidades_validas(Meta::Sobre(2i8, -3i8), s0(), q) && e == vacia + q.map_values(
                |a: Apilar| con_tope(s0(), Stackeable::Accion(a)),
            );
        sec_unitaria(q, a1);
        assert(con_tope(s0(), acc(a1)) == s1()) by {
            assert(con_tope(s0(), acc(a1)).pila =~= s1().pila);
        }
        assert(e =~= seq![s1()]);
    }
    paso_forzado(p, vis, k, vr, seq![s1()]);
    let vis = vis.insert(clave_vista(s0()));

    // the move is not executable: disk 2 is covered; its preconditions become goals
    let p = seq![s1()];
    assert(p.last() == s1());
    assert(p.drop_last() =~= vacia);
    longitudes(s1(), s0());
    assert(s1().pila.last() == acc(a1));
    assert(!r0().contains(a1.precondiciones()[2].clave()));
    assert(con_prerrequisitos(a1, s1()) == s2()) by {
        assert(con_prerrequisitos(a1, s1()).pila =~= s2().pila);
    }
    paso_forzado(p, vis, (k - 1) as nat, vr, seq![s2()]);
    let vis = vis.insert(clave_vista(s1()));

    // the conjunction "disk 2 and peg -3 clear" does not hold: both orders become goals
    let p = seq![s2()];
    assert(p.last() == s2());
    assert(p.drop_last() =~= vacia);
    longitudes(s2(), s0());
    longitudes(s2(), s1());
    assert(s2().pila.last() == conj());
    assert(!r0().contains(Meta::Despejado(2i8).clave()));
    assert(!objetivo_debajo(s2().pila, Meta::Despejado(2i8))) by {
        assert(s2().pila[0] == g1() && s2().pila[1] == g2() && s2().pila[2] == acc(a1));
        assert(s2().pila[3] == om() && s2().pila[4] == os());
    }
    assert(!objetivo_debajo(s2().pila, Meta::Despejado(-3i8))) by {
        assert(s2().pila[0] == g1() && s2().pila[1] == g2() && s2().pila[2] == acc(a1));
        assert(s2().pila[3] == om() && s2().pila[4] == os());
    }
    assert(con_metas(s2(), Meta::Despejado(2i8), Meta::Despejado(-3i8)) == s3a()) by {
        assert(con_metas(s2(), Meta::Despejado(2i8), Meta::Despejado(-3i8)).pila =~= s3a().pila);
    }
    assert(con_metas(s2(), Meta::Despejado(-3i8), Meta::Despejado(2i8)) == s3b()) by {
        assert(con_metas(s2(), Meta::Despejado(-3i8), Meta::Despejado(2i8)).pila =~= s3b().pila);
    }
    assert forall|e: Seq<EstadoVista>| #[trigger] expansion(vacia, s2(), e) implies e == seq![s3a(), s3b()] by {
        assert(conj() == Stackeable::Conjuncion([2i8, -3i8]));
        assert(e =~= seq![s3a(), s3b()]);
    }
    paso_forzado(p, vis, (k - 2) as nat, vr, seq![s3a(), s3b()]);
    let vis = vis.insert(clave_vista(s2()));

    // disk 1 must leave disk 2: onto peg -2 or peg -3, in the order of the walk
    let p = seq![s3a(), s3b()];
    assert(p.last() == s3b());
    assert(p.drop_last() =~= seq![s3a()]);
    longitudes(s3b(), s0());
    longitudes(s3b(), s1());
    longitudes(s3b(), s2());
    assert(s3b().pila.last() == od2());
    assert(!objetivo_debajo(s3b().pila, Meta::Despejado(2i8))) by {
        assert(s3b().pila[0] == g1() && s3b().pila[1] == g2() && s3b().pila[2] == acc(a1));
        assert(s3b().pila[3] == om() && s3b().pila[4] == os() && s3b().pila[5] == od3());
    }
    assert(r0().contains(Meta::Sobre(1i8, 2i8).clave()));
    assert forall|c: i8| disco_encima(r0(), 2i8, c) implies c == 1 by {
        assert(r0().contains(Meta::Sobre(1i8, 2i8).clave()));
    }
    assert forall|b: Apilar| #[trigger] destinos(1i8, 2i8, 0i8, r0()).contains(b) <==> (b == b2 || b == b3) by {}
    assert(destinos(1i8, 2i8, 0i8, r0()) =~= set![b2, b3]);
    let e1 = seq![s3a(), t(b2), t(b3)];
    let e2 = seq![s3a(), t(b3), t(b2)];
    let base1 = seq![s3a()];
    assert forall|e: Seq<EstadoVista>| #[trigger] expansion(base1, s3b(), e) implies e == e1 || e == e2 by {
        let q = choose|q: Seq<Apilar>|
            #[trigger] posibilidades_validas(Meta::Despejado(2i8), s3b(), q) && e == seq![s3a()] + q.map_values(
                |a: Apilar| con_tope(s3b(), Stackeable::Accion(a)),
            );
        let c = choose|c: i8|
            #[trigger] disco_encima(r0(), 2i8, c) && q.to_set() == destinos(c, 2i8, 0i8, r0());
        assert(c == 1);
        sec_doble(q, b2, b3);
        assert(con_tope(s3b(), acc(b2)) == t(b2));
        assert(con_tope(s3b(), acc(b3)) == t(b3));
        if q == seq![b2, b3] {
            assert(e =~= e1);
        } else {
            assert(e =~= e2);
        }
    }
    paso_doble(p, vis, (k - 3) as nat, vr, e1, e2);
    let vis = vis.insert(clave_vista(s3b()));
    assert(vis.subset_of(vistos()));

    if puede_devolver(e2, vis, (k - 4) as nat, vr) {
        // disk 1 goes onto peg -2 first
        assert(e2 == seq![s3a(), t(b3)].push(t(b2)));
        tramo_final(seq![s3a(), t(b3)], vis, (k - 4) as nat, vr);
    } else {
        // disk 1 goes onto peg -3 first: that branch dies, then peg -2 is tried
        assert(puede_devolver(e1, vis, (k - 4) as nat, vr));
        let p = e1;
        assert(p.last() == t(b3));
        assert(p.drop_last() =~= seq![s3a(), t(b2)]);
        longitudes(t(b3), s0());
        longitudes(t(b3), s1());
        longitudes(t(b3), s2());
        longitudes(t(b3), s3b());
        assert(t(b3).pila.last() == acc(b3));
        assert forall|i: int| 0 <= i < 4 implies r0().contains(#[trigger] b3.precondiciones()[i].clave()) by {}
        assert(aplicado(b3, t(b3)) == u1()) by {
            assert(aplicado(b3, t(b3)).pila =~= u1().pila);
        }
        assert(seq![s3a(), t(b2)].push(u1()) =~= seq![s3a(), t(b2), u1()]);
        paso_forzado(p, vis, (k - 4) as nat, vr, seq![s3a(), t(b2), u1()]);
        let vis = vis.insert(clave_vista(t(b3)));

        // disk 2 is clear now
        let p = seq![s3a(), t(b2), u1()];
        assert(p.last() == u1());
        assert(p.drop_last() =~= seq![s3a(), t(b2)]);
        longitudes(u1(), s0());
        longitudes(u1(), s1());
        longitudes(u1(), s2());
        longitudes(u1(), t(b3));
        assert(!r1().contains(Meta::Sobre(1i8, 2i8).clave()));
        distintas(u1(), s3b());
        assert(u1().pila.last() == od2());
        assert(r1().contains(Meta::Despejado(2i8).clave()));
        assert(sin_meta(u1()) == u2()) by {
            assert(sin_meta(u1()).pila =~= u2().pila);
        }
        assert(seq![s3a(), t(b2)].push(u2()) =~= seq![s3a(), t(b2), u2()]);
        paso_forzado(p, vis, (k - 5) as nat, vr, seq![s3a(), t(b2), u2()]);
        let vis = vis.insert(clave_vista(u1()));

        // peg -3 holds disk 1, the disk moved last: nothing to try
        let p = seq![s3a(), t(b2), u2()];
        assert(p.last() == u2());
        assert(p.drop_last() =~= seq![s3a(), t(b2)]);
        longitudes(u2(), s0());
        longitudes(u2(), s1());
        longitudes(u2(), s3b());
        longitudes(u2(), t(b3));
        longitudes(u2(), u1());
        assert(u2().pila[5] != s2().pila[5]);
        distintas(u2(), s2());
        assert(u2().pila.last() == od3());
        assert(!r1().contains(Meta::Despejado(-3i8).clave()));
        assert(!objetivo_debajo(u2().pila, Meta::Despejado(-3i8))) by {
            assert(u2().pila[0] == g1() && u2().pila[1] == g2() && u2().pila[2] == acc(a1));
            assert(u2().pila[3] == om() && u2().pila[4] == os());
        }
        assert(r1().contains(Meta::Sobre(1i8, -3i8).clave()));
        assert(crate::accion::ultimo_movido(u2().solucion) == 1);
        let base2 = seq![s3a(), t(b2)];
        assert forall|e: Seq<EstadoVista>| #[trigger] expansion(base2, u2(), e) implies e == base2 by {
            let q = choose|q: Seq<Apilar>|
                #[trigger] posibilidades_validas(Meta::Despejado(-3i8), u2(), q) && e == seq![s3a(), t(b2)]
                    + q.map_values(|a: Apilar| con_tope(u2(), Stackeable::Accion(a)));
            let c = choose|c: i8|
                #[trigger] disco_encima(r1(), -3i8, c) && q.to_set() == destinos(c, -3i8, 1i8, r1());
            assert(c == 1);
            assert(destinos(c, -3i8, 1i8, r1()) == Set::<Apilar>::empty());
            sec_vacia(q);
            assert(e =~= seq![s3a(), t(b2)]);
        }
        paso_forzado(p, vis, (k - 6) as nat, vr, seq![s3a(), t(b2)]);
        let vis = vis.insert(clave_vista(u2()));
        assert(vis.subset_of(vistos()));
        assert(seq![s3a(), t(b2)] == seq![s3a()].push(t(b2)));
        tramo_final(seq![s3a()], vis, (k - 7) as nat, vr);
    }
    assert(w10().solucion =~= solucion_dos());
    assert(r3().contains(Meta::Sobre(2i8, -3i8).clave()));
    assert(r4().contains(Meta::Sobre(2i8, -3i8).clave()));
    assert(r4().contains(Meta::Sobre(1i8, 2i8).clave()));
}

} // verus!
