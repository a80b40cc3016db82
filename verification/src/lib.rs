//! A STRIPS planner with a goal stack, set up to solve the Towers of Hanoi.
//!
//! Disks are the numbers `1..=n` (1 the smallest), the pegs are `-1`, `-2`
//! and `-3`. The planner moves the tower from peg `-1` to peg `-3`.
pub mod accion;
pub mod conjunto;
pub mod dos_discos;
pub mod orden;
pub mod stackeable;
pub mod strips;
pub mod stripsstate;
pub mod texto;

use accion::{candidatos_sobre, clave_inyectiva, plan_aplicado, Apilar, Meta};
use conjunto::Clave;
use stackeable::Stackeable;
use strips::{expansion, puede_devolver, vista_opcional, Strips};
use stripsstate::{clave_identifica_estado, clave_vista, objetivo_debajo, EstadoVista, StripsState};
use vstd::prelude::*;

verus! {

/// The facts of the puzzle with `n` disks at the start: disk 1 and pegs `-2`
/// and `-3` are clear, every disk is smaller than every larger disk and than
/// every peg, each disk lies on the next larger one, and disk `n` lies on peg `-1`.
pub open spec fn hechos_iniciales(n: i8) -> Set<Meta> {
    Set::new(
        |m: Meta|
            match m {
                Meta::Despejado(a) => a == 1 || a == -2 || a == -3,
                Meta::Menor(a, b) => (1 <= a < b <= n) || (1 <= a <= n && -3 <= b <= -1),
                Meta::Sobre(a, b) => (1 <= a < n && b == a + 1) || (a == n && b == -1),
            },
    )
}

/// The keys of the facts at the start.
pub open spec fn recursos_iniciales(n: i8) -> Set<Clave> {
    hechos_iniciales(n).map(|m: Meta| m.clave())
}

/// The goal configuration: each disk on the next larger one and disk `n` on
/// peg `-3`, the smallest disk first.
pub open spec fn metas_finales(n: i8) -> Seq<Meta> {
    Seq::new(
        if n >= 1 {
            (n - 1) as nat
        } else {
            0
        },
        |i: int| Meta::Sobre((i + 1) as i8, (i + 2) as i8),
    ).push(Meta::Sobre(n, -3i8))
}

/// The goal stack at the start: the goal configuration, its last fact on top.
pub open spec fn objetivos_iniciales(n: i8) -> Seq<Stackeable> {
    metas_finales(n).map_values(|m: Meta| Stackeable::Objetivo(m))
}

fn metas_hanoi(discos: i8) -> (r: Vec<Meta>)
    ensures
        r@ == metas_finales(discos),
        r@.len() > 0,
        r@.last() == Meta::Sobre(discos, -3i8),
        forall|i: int| 0 <= i < r@.len() - 1 ==> r@[i] == Meta::Sobre((i + 1) as i8, (i + 2) as i8),
{
    let mut metas: Vec<Meta> = Vec::new();
    let n: i16 = discos as i16;
    let mut i: i16 = 1;
    while i < n
        invariant
            n == discos,
            1 <= i,
            i <= 1 || i <= n,
            metas@ == Seq::new((i - 1) as nat, |k: int| Meta::Sobre((k + 1) as i8, (k + 2) as i8)),
        decreases n - i,
    {
        metas.push(Meta::Sobre(i as i8, (i + 1) as i8));
        i = i + 1;
        assert(metas@ =~= Seq::new((i - 1) as nat, |k: int| Meta::Sobre((k + 1) as i8, (k + 2) as i8)));
    }
    metas.push(Meta::Sobre(discos, -3));
    assert(metas@ =~= metas_finales(discos));
    metas
}

fn objetivos_hanoi(discos: i8) -> (r: Vec<Stackeable>)
    ensures
        r@ == objetivos_iniciales(discos),
{
    let metas = metas_hanoi(discos);
    let mut objetivos: Vec<Stackeable> = Vec::new();
    let mut i: usize = 0;
    while i < metas.len()
        invariant
            i <= metas@.len(),
            objetivos@ == metas@.take(i as int).map_values(|m: Meta| Stackeable::Objetivo(m)),
        decreases metas@.len() - i,
    {
        objetivos.push(Stackeable::Objetivo(metas[i]));
        i = i + 1;
        assert(objetivos@ =~= metas@.take(i as int).map_values(|m: Meta| Stackeable::Objetivo(m)));
    }
    assert(metas@.take(metas@.len() as int) =~= metas@);
    objetivos
}

/// The goal stack of the puzzle with `n` disks: one goal per disk, disk `i`
/// on disk `i + 1` for each disk but the largest, and on top the largest disk
/// on peg `-3`.
pub proof fn objetivos_torre(n: i8)
    ensures
        objetivos_iniciales(n).len() == (if n >= 1 {
            n as int
        } else {
            1
        }),
        objetivos_iniciales(n).last() == Stackeable::Objetivo(Meta::Sobre(n, -3i8)),
        forall|i: int|
            0 <= i < objetivos_iniciales(n).len() - 1 ==> #[trigger] objetivos_iniciales(n)[i]
                == Stackeable::Objetivo(Meta::Sobre((i + 1) as i8, (i + 2) as i8)),
{
}

/// The tower of `n` disks stands on peg `-3`: each disk lies on the next
/// larger one and disk `n` lies on peg `-3`.
pub open spec fn torre_en_destino(n: i8, r: Set<Clave>) -> bool {
    &&& forall|i: i8| 1 <= i < n ==> r.contains(#[trigger] Meta::Sobre(i, (i + 1) as i8).clave())
    &&& r.contains(Meta::Sobre(n, -3i8).clave())
}

/// A fact holds at the start exactly when its key is among the starting keys.
proof fn recurso_inicial(n: i8, m: Meta)
    ensures
        recursos_iniciales(n).contains(m.clave()) <==> hechos_iniciales(n).contains(m),
{
    if hechos_iniciales(n).contains(m) {
        assert(recursos_iniciales(n).contains(m.clave()));
    }
    if recursos_iniciales(n).contains(m.clave()) {
        let a = choose|a: Meta| hechos_iniciales(n).contains(a) && a.clave() == m.clave();
        clave_inyectiva(a, m);
    }
}

/// The only move with one disk: from peg `-1` to peg `-3`.
pub open spec fn movimiento_unico() -> Apilar {
    Apilar { x: 1i8, y: -1i8, z: -3i8 }
}

/// A state from which, with `n <= 0` disks, no search can get rid of its goals:
/// the goal "disk `n` on peg -3" lies at the bottom of its goal stack and does
/// not hold, and no fact says that a number up to 0 is smaller than anything,
/// so the move that would reach that goal is never executable.
pub open spec fn sin_salida(n: i8, v: EstadoVista) -> bool {
    let g = Meta::Sobre(n, -3i8);
    &&& v.pila.len() > 0
    &&& v.pila[0] == Stackeable::Objetivo(g)
    &&& !v.recursos.contains(g.clave())
    &&& forall|a: i8, b: i8| a <= 0 ==> !v.recursos.contains(#[trigger] Meta::Menor(a, b).clave())
}

/// Expanding a state without a way out gives only such states.
proof fn expansion_sin_salida(n: i8, antes: Seq<EstadoVista>, v: EstadoVista, d: Seq<EstadoVista>)
    requires
        n <= 0,
        sin_salida(n, v),
        forall|i: int| 0 <= i < antes.len() ==> sin_salida(n, #[trigger] antes[i]),
        expansion(antes, v, d),
    ensures
        forall|i: int| 0 <= i < d.len() ==> sin_salida(n, #[trigger] d[i]),
{
    let g = Meta::Sobre(n, -3i8);
    let ultimo = v.pila.last();
    match ultimo {
        Stackeable::Accion(a) => {
            assert(v.pila.len() >= 2);
            if a.ejecutable_en(v.recursos) {
                let w = strips::aplicado(a, v);
                assert(v.recursos.contains(a.precondiciones()[0].clave()));
                assert(w.pila[0] == v.pila[0]);
                assert(!w.recursos.contains(g.clave()));
                assert(sin_salida(n, w));
                assert forall|i: int| 0 <= i < d.len() implies sin_salida(n, #[trigger] d[i]) by {
                    if i < antes.len() {
                        assert(d[i] == antes[i]);
                    }
                }
            } else {
                let w = strips::con_prerrequisitos(a, v);
                assert(w.pila[0] == v.pila[0]);
                assert(sin_salida(n, w));
                assert forall|i: int| 0 <= i < d.len() implies sin_salida(n, #[trigger] d[i]) by {
                    if i < antes.len() {
                        assert(d[i] == antes[i]);
                    }
                }
            }
        },
        Stackeable::Objetivo(m) => {
            if v.recursos.contains(m.clave()) {
                if v.pila.len() == 1 {
                    assert(v.pila[0] == ultimo);
                }
                let w = strips::sin_meta(v);
                assert(w.pila[0] == v.pila[0]);
                assert(sin_salida(n, w));
                assert forall|i: int| 0 <= i < d.len() implies sin_salida(n, #[trigger] d[i]) by {
                    if i < antes.len() {
                        assert(d[i] == antes[i]);
                    }
                }
            } else if objetivo_debajo(v.pila, m) {
            } else {
                let p = choose|p: Seq<Apilar>|
                    accion::posibilidades_validas(m, v, p) && d == antes + p.map_values(
                        |b: Apilar| strips::con_tope(v, Stackeable::Accion(b)),
                    );
                assert forall|i: int| 0 <= i < d.len() implies sin_salida(n, #[trigger] d[i]) by {
                    if i < antes.len() {
                        assert(d[i] == antes[i]);
                    } else {
                        let w = strips::con_tope(v, Stackeable::Accion(p[i - antes.len()]));
                        assert(d[i] == w);
                        assert(w.pila[0] == v.pila[0]);
                    }
                }
            }
        },
        Stackeable::Conjuncion(c) => {
            assert(v.pila.len() >= 2);
            let m0 = Meta::Despejado(c[0]);
            let m1 = Meta::Despejado(c[1]);
            if v.recursos.contains(m0.clave()) && v.recursos.contains(m1.clave()) {
                let w = strips::sin_meta(v);
                assert(w.pila[0] == v.pila[0]);
                assert(sin_salida(n, w));
                assert forall|i: int| 0 <= i < d.len() implies sin_salida(n, #[trigger] d[i]) by {
                    if i < antes.len() {
                        assert(d[i] == antes[i]);
                    }
                }
            } else if objetivo_debajo(v.pila, m0) || objetivo_debajo(v.pila, m1) {
            } else {
                let w0 = strips::con_metas(v, m0, m1);
                let w1 = strips::con_metas(v, m1, m0);
                assert(w0.pila[0] == v.pila[0]);
                assert(w1.pila[0] == v.pila[0]);
                assert(sin_salida(n, w0));
                assert(sin_salida(n, w1));
                assert forall|i: int| 0 <= i < d.len() implies sin_salida(n, #[trigger] d[i]) by {
                    if i < antes.len() {
                        assert(d[i] == antes[i]);
                    }
                }
            }
        },
    }
}

/// A search whose pending states have no way out returns nothing.
proof fn busqueda_sin_salida(
    n: i8,
    pend: Seq<EstadoVista>,
    vis: Set<(Seq<crate::conjunto::Codigo>, Seq<crate::conjunto::Clave>)>,
    k: nat,
    r: Option<EstadoVista>,
)
    requires
        n <= 0,
        forall|i: int| 0 <= i < pend.len() ==> sin_salida(n, #[trigger] pend[i]),
        puede_devolver(pend, vis, k, r),
    ensures
        r is None,
    decreases k,
{
    if k == 0 || pend.len() == 0 {
    } else {
        let v = pend.last();
        let resto = pend.drop_last();
        assert(sin_salida(n, pend[pend.len() - 1]));
        assert forall|i: int| 0 <= i < resto.len() implies sin_salida(n, #[trigger] resto[i]) by {
            assert(resto[i] == pend[i]);
        }
        if vis.contains(clave_vista(v)) {
            busqueda_sin_salida(n, resto, vis, (k - 1) as nat, r);
        } else {
            let d = choose|d: Seq<EstadoVista>|
                expansion(resto, v, d) && puede_devolver(
                    d,
                    vis.insert(clave_vista(v)),
                    (k - 1) as nat,
                    r,
                );
            expansion_sin_salida(n, resto, v, d);
            busqueda_sin_salida(n, d, vis.insert(clave_vista(v)), (k - 1) as nat, r);
        }
    }
}

/// With no disk or a negative number of them, the start has no way out.
proof fn inicio_sin_salida(n: i8, s0: EstadoVista)
    requires
        n <= 0,
        s0.pila == objetivos_iniciales(n),
        s0.recursos == recursos_iniciales(n),
    ensures
        sin_salida(n, s0),
{
    let g = Meta::Sobre(n, -3i8);
    assert(s0.pila =~= seq![Stackeable::Objetivo(g)]);
    recurso_inicial(n, g);
    assert forall|a: i8, b: i8| a <= 0 implies !s0.recursos.contains(
        #[trigger] Meta::Menor(a, b).clave(),
    ) by {
        recurso_inicial(n, Meta::Menor(a, b));
    }
}

/// With one disk, the search tries the only move, carries it out, finds the
/// goal met, and returns the state reached.
proof fn un_disco(s0: EstadoVista, vr: Option<EstadoVista>)
    requires
        s0.pila == objetivos_iniciales(1),
        s0.recursos == recursos_iniciales(1),
        s0.recursos.finite(),
        s0.solucion == Seq::<Apilar>::empty(),
        puede_devolver(seq![s0], Set::empty(), u64::MAX as nat, vr),
    ensures
        vr is Some,
        vr->0.pila.len() == 0,
        vr->0.solucion == seq![movimiento_unico()],
{
    let g = Meta::Sobre(1i8, -3i8);
    let a = movimiento_unico();
    let rec0 = s0.recursos;
    let vacia = Seq::<EstadoVista>::empty();
    let vis0 = Set::<(Seq<crate::conjunto::Codigo>, Seq<crate::conjunto::Clave>)>::empty();
    assert(s0.pila =~= seq![Stackeable::Objetivo(g)]);
    recurso_inicial(1, g);
    assert(!objetivo_debajo(s0.pila, g));

    // first step: the goal is expanded into the only move
    let pend0 = seq![s0];
    assert(pend0.last() == s0);
    assert(pend0.drop_last() =~= vacia);
    let k0 = clave_vista(s0);
    let vis1 = vis0.insert(k0);
    let d1 = choose|d: Seq<EstadoVista>|
        expansion(vacia, s0, d) && puede_devolver(d, vis1, (u64::MAX - 1) as nat, vr);
    let p = choose|p: Seq<Apilar>|
        accion::posibilidades_validas(g, s0, p) && d1 == vacia + p.map_values(
            |b: Apilar| strips::con_tope(s0, Stackeable::Accion(b)),
        );
    assert forall|b: Apilar| #[trigger] candidatos_sobre(1i8, -3i8, 0i8, rec0).contains(b) <==> b == a by {
        recurso_inicial(1, Meta::Sobre(1i8, b.y));
    }
    assert(candidatos_sobre(1i8, -3i8, 0i8, rec0) =~= set![a]);
    assert(p.to_set().contains(a));
    assert(p.len() == 1) by {
        if p.len() >= 2 {
            assert(p.to_set().contains(p[0]));
            assert(p.to_set().contains(p[1]));
        }
    }
    assert(p.to_set().contains(p[0]));
    assert(p =~= seq![a]);
    let v1 = strips::con_tope(s0, Stackeable::Accion(a));
    assert(d1 =~= seq![v1]);

    // second step: the move is executable and carried out
    assert(d1.last() == v1);
    assert(d1.drop_last() =~= vacia);
    let k1 = clave_vista(v1);
    assert(k1.0.len() == 2 && k0.0.len() == 1);
    assert(!vis1.contains(k1));
    let vis2 = vis1.insert(k1);
    let d2 = choose|d: Seq<EstadoVista>|
        expansion(vacia, v1, d) && puede_devolver(d, vis2, (u64::MAX - 2) as nat, vr);
    assert(v1.pila.last() == Stackeable::Accion(a));
    assert forall|i: int| 0 <= i < 4 implies rec0.contains(#[trigger] a.precondiciones()[i].clave()) by {
        recurso_inicial(1, a.precondiciones()[i]);
    }
    let v2 = strips::aplicado(a, v1);
    assert(d2 =~= seq![v2]);

    // third step: the goal holds and is popped
    assert(d2.last() == v2);
    assert(d2.drop_last() =~= vacia);
    assert(v2.pila =~= s0.pila);
    let k2 = clave_vista(v2);
    recurso_inicial(1, Meta::Sobre(1i8, -1i8));
    assert(rec0.contains(Meta::Sobre(1i8, -1i8).clave()));
    assert(!v2.recursos.contains(Meta::Sobre(1i8, -1i8).clave()));
    clave_identifica_estado(v2, s0);
    assert(k2 != k0);
    assert(k2.0.len() == 1);
    assert(!vis2.contains(k2));
    let vis3 = vis2.insert(k2);
    let d3 = choose|d: Seq<EstadoVista>|
        expansion(vacia, v2, d) && puede_devolver(d, vis3, (u64::MAX - 3) as nat, vr);
    assert(v2.pila.last() == Stackeable::Objetivo(g));
    assert(v2.recursos.contains(g.clave()));
    let v3 = strips::sin_meta(v2);
    assert(d3 =~= seq![v3]);

    // fourth step: the goal stack is empty and the state is returned
    assert(d3.last() == v3);
    assert(v3.pila.len() == 0);
    assert(v3.solucion =~= seq![a]);
}

/// Sets up the puzzle with `discos` disks and runs the planner until it finds
/// a state with no goal left or has no state left. A state it returns has an
/// empty goal stack, and its moves, each executable where it stands, lead from
/// the start to its facts, and the goal at the bottom of the goal stack holds
/// in it: disk 1 on disk 2, or on peg `-3` when it is the only disk. The goal
/// stack handed to the search is that of `objetivos_torre`, with disk `discos`
/// on peg `-3` on top. With one disk it returns the one move from peg `-1`
/// to peg `-3`; with two disks the three moves of `solucion_dos`; with one or
/// two disks the state returned has the tower on peg `-3`; with no disk or a
/// negative count it returns nothing.
pub fn hanoi(discos: i8) -> (r: Option<StripsState>)
    ensures
        match r {
            Some(st) => st@.pila.len() == 0 && plan_aplicado(recursos_iniciales(discos), st@.solucion)
                == Some(st@.recursos),
            None => true,
        },
        discos == 1 ==> r is Some && r->0@.solucion == seq![movimiento_unico()],
        discos == 2 ==> r is Some && r->0@.solucion == dos_discos::solucion_dos(),
        discos <= 0 ==> r is None,
        1 <= discos <= 2 ==> r is Some && torre_en_destino(discos, r->0@.recursos),
        discos >= 1 && r is Some ==> r->0@.recursos.contains(
            Meta::Sobre(
                1i8,
                if discos == 1 {
                    -3i8
                } else {
                    2i8
                },
            ).clave(),
        ),
        puede_devolver(
            seq![
                EstadoVista {
                    pila: objetivos_iniciales(discos),
                    recursos: recursos_iniciales(discos),
                    solucion: Seq::empty(),
                },
            ],
            Set::empty(),
            u64::MAX as nat,
            vista_opcional(r),
        ),
{
    let estado_actual = hechos_hanoi(discos);
    let objetivos = objetivos_hanoi(discos);
    let meta_final = metas_hanoi(discos);
    let n_discos: usize = if discos >= 1 {
        (discos - 1) as usize
    } else {
        0
    };
    let estado_inicial = StripsState::new(estado_actual, objetivos, n_discos);
    proof {
        estado_actual@.lemma_to_set_map_commutes(|m: Meta| m.clave());
        assert(estado_inicial@.recursos == recursos_iniciales(discos));
    }
    let ghost s0 = estado_inicial@;
    proof {
        vstd::seq_lib::seq_to_set_is_finite(estado_actual@.map_values(|m: Meta| m.clave()));
    }
    let strips_solver = Strips::new(estado_inicial, Apilar::new(0, 0, 0), meta_final, discos);
    let r = strips_solver.resolver(u64::MAX);
    proof {
        if r is Some {
            assert(r->0@.solucion.skip(0) =~= r->0@.solucion);
        }
        assert(strips_solver.pendientes() =~= seq![s0]);
        if discos == 1 {
            un_disco(s0, vista_opcional(r));
        }
        if discos == 2 {
            dos_discos::dos_discos(s0, vista_opcional(r));
        }
        if discos >= 1 {
            let g = Meta::Sobre(
                1i8,
                if discos == 1 {
                    -3i8
                } else {
                    2i8
                },
            );
            objetivos_torre(discos);
            assert(s0.pila[0] == Stackeable::Objetivo(g));
            strips::devuelve_con_fondo(g, seq![s0], Set::empty(), u64::MAX as nat, vista_opcional(r));
        }
        if discos <= 0 {
            inicio_sin_salida(discos, s0);
            busqueda_sin_salida(discos, seq![s0], Set::empty(), u64::MAX as nat, vista_opcional(r));
        }
        assert(s0 == EstadoVista {
            pila: objetivos_iniciales(discos),
            recursos: recursos_iniciales(discos),
            solucion: Seq::empty(),
        });
    }
    r
}

/// The mean, the best and the worst of two measured times.
pub fn resumen_tiempos(t1: u128, t2: u128) -> (r: (u128, u128, u128))
    requires
        t1 + t2 <= u128::MAX,
    ensures
        r.0 == (t1 + t2) / 2,
        r.1 == if t1 <= t2 {
            t1
        } else {
            t2
        },
        r.2 == if t1 <= t2 {
            t2
        } else {
            t1
        },
{
    let mut total_time: u128 = 0;
    let mut best_time: u128 = u128::MAX;
    let mut worst_time: u128 = 0;
    let tiempos: [u128; 2] = [t1, t2];
    let mut i: usize = 0;
    while i < 2
        invariant
            i <= 2,
            tiempos@ == seq![t1, t2],
            t1 + t2 <= u128::MAX,
            i == 0 ==> total_time == 0 && best_time == u128::MAX && worst_time == 0,
            i == 1 ==> total_time == t1 && best_time == t1 && worst_time == t1,
            i == 2 ==> total_time == t1 + t2 && best_time == (if t1 <= t2 {
                t1
            } else {
                t2
            }) && worst_time == (if t1 <= t2 {
                t2
            } else {
                t1
            }),
        decreases 2 - i,
    {
        let actual_time = tiempos[i];
        total_time = total_time + actual_time;
        if actual_time > worst_time {
            worst_time = actual_time;
        }
        if actual_time < best_time {
            best_time = actual_time;
        }
        i = i + 1;
    }
    (total_time / 2, best_time, worst_time)
}

/// The facts listed after the loop over the disk pairs has reached pair `(i, d)`.
spec fn hechos_menores(d: int, i: int) -> Set<Meta> {
    Set::new(
        |m: Meta|
            match m {
                Meta::Despejado(a) => a == 1 || a == -2 || a == -3,
                Meta::Menor(a, b) => (1 <= a < b < d) || (b == d && 1 <= a < i),
                Meta::Sobre(_, _) => false,
            },
    )
}

/// The facts listed after the loop over disks and pegs has reached `(i, v)`.
spec fn hechos_varillas(n: int, i: int, v: int) -> Set<Meta> {
    Set::new(
        |m: Meta|
            match m {
                Meta::Despejado(a) => a == 1 || a == -2 || a == -3,
                Meta::Menor(a, b) => (1 <= a < b <= n) || (1 <= a < i && -3 <= b <= -1) || (a == i
                    && -3 <= b < v),
                Meta::Sobre(_, _) => false,
            },
    )
}

/// The facts listed after the loop over the stacked disks has reached disk `i`.
spec fn hechos_sobre(n: int, i: int) -> Set<Meta> {
    Set::new(
        |m: Meta|
            match m {
                Meta::Despejado(a) => a == 1 || a == -2 || a == -3,
                Meta::Menor(a, b) => (1 <= a < b <= n) || (1 <= a <= n && -3 <= b <= -1),
                Meta::Sobre(a, b) => 1 <= a < i && b == a + 1,
            },
    )
}

/// The facts of the puzzle with `discos` disks at the start.
fn hechos_hanoi(discos: i8) -> (r: Vec<Meta>)
    ensures
        r@.to_set() == hechos_iniciales(discos),
{
    let mut estado_actual: Vec<Meta> = Vec::new();
    estado_actual.push(Meta::Despejado(1));
    estado_actual.push(Meta::Despejado(-2));
    estado_actual.push(Meta::Despejado(-3));
    proof {
        let s = estado_actual@;
        assert(s =~= seq![Meta::Despejado(1i8), Meta::Despejado(-2i8), Meta::Despejado(-3i8)]);
        assert forall|m: Meta| s.to_set().contains(m) <==> hechos_menores(2, 1).contains(m) by {
            if hechos_menores(2, 1).contains(m) {
                if m == Meta::Despejado(1i8) {
                    assert(s[0] == m);
                } else if m == Meta::Despejado(-2i8) {
                    assert(s[1] == m);
                } else {
                    assert(s[2] == m);
                }
            }
        }
        assert(s.to_set() =~= hechos_menores(2, 1));
    }

    let n: i16 = discos as i16;
    let mut disco_actual: i16 = 2;
    while disco_actual <= n
        invariant
            n == discos,
            2 <= disco_actual,
            disco_actual <= 2 || disco_actual <= n + 1,
            estado_actual@.to_set() == hechos_menores(disco_actual as int, 1),
        decreases n + 1 - disco_actual,
    {
        let mut i: i16 = 1;
        while i < disco_actual
            invariant
                n == discos,
                2 <= disco_actual <= n,
                1 <= i <= disco_actual,
                estado_actual@.to_set() == hechos_menores(disco_actual as int, i as int),
            decreases disco_actual - i,
        {
            let m = Meta::Menor(i as i8, disco_actual as i8);
            proof {
                estado_actual@.lemma_push_to_set_commute(m);
                assert(hechos_menores(disco_actual as int, i + 1) =~= hechos_menores(
                    disco_actual as int,
                    i as int,
                ).insert(m));
            }
            estado_actual.push(m);
            i = i + 1;
        }
        assert(hechos_menores(disco_actual as int, disco_actual as int) =~= hechos_menores(
            disco_actual + 1,
            1,
        ));
        disco_actual = disco_actual + 1;
    }
    assert(hechos_menores(disco_actual as int, 1) =~= hechos_varillas(n as int, 1, -3));

    let mut i: i16 = 1;
    while i <= n
        invariant
            n == discos,
            1 <= i,
            i <= 1 || i <= n + 1,
            estado_actual@.to_set() == hechos_varillas(n as int, i as int, -3),
        decreases n + 1 - i,
    {
        let mut varilla: i16 = -3;
        while varilla < 0
            invariant
                n == discos,
                1 <= i <= n,
                -3 <= varilla <= 0,
                estado_actual@.to_set() == hechos_varillas(n as int, i as int, varilla as int),
            decreases 0 - varilla,
        {
            let m = Meta::Menor(i as i8, varilla as i8);
            proof {
                estado_actual@.lemma_push_to_set_commute(m);
                assert(hechos_varillas(n as int, i as int, varilla + 1) =~= hechos_varillas(
                    n as int,
                    i as int,
                    varilla as int,
                ).insert(m));
            }
            estado_actual.push(m);
            varilla = varilla + 1;
        }
        assert(hechos_varillas(n as int, i as int, 0) =~= hechos_varillas(n as int, i + 1, -3));
        i = i + 1;
    }
    assert(hechos_varillas(n as int, i as int, -3) =~= hechos_sobre(n as int, 1));

    let mut i: i16 = 1;
    while i < n
        invariant
            n == discos,
            1 <= i,
            i <= 1 || i <= n,
            estado_actual@.to_set() == hechos_sobre(n as int, i as int),
        decreases n - i,
    {
        let m = Meta::Sobre(i as i8, (i + 1) as i8);
        proof {
            estado_actual@.lemma_push_to_set_commute(m);
            assert(hechos_sobre(n as int, i + 1) =~= hechos_sobre(n as int, i as int).insert(m));
        }
        estado_actual.push(m);
        i = i + 1;
    }
    let m = Meta::Sobre(discos, -1);
    proof {
        estado_actual@.lemma_push_to_set_commute(m);
        assert(hechos_iniciales(discos) =~= hechos_sobre(n as int, i as int).insert(m));
    }
    estado_actual.push(m);
    estado_actual
}

} // verus!
