//! The goal-stack search: a stack of pending states, expanded one at a time,
//! with a set of the states already expanded.
use crate::accion::{plan_aplicado, posibilidades_validas, Apilar, Meta};
use crate::conjunto::{contenido_claves, Clave, Codigo, ConjuntoClaves};
use crate::stackeable::Stackeable;
use crate::stripsstate::{
    clave_vista, objetivo_debajo, sin_tope, tamano_tabla, EstadoVista, StripsState,
};
use std::collections::VecDeque;
use vstd::prelude::*;

verus! {

const VISITADOS_SIZE: [usize; 14] = [
    3, 14, 37, 247, 437, 1065, 2417, 5386, 11876, 25033, 55892, 117509, 253839, 552215,
];

/// What the expansion of the top goal of a state came to.
enum EstadoMeta {
    CumpleMeta,
    Bucle,
    Igual,
    NuevosEstados,
    Acc,
}

/// What one step of the search came to.
pub enum Paso {
    /// The state taken has an empty goal stack: it is the solution.
    Solucion(StripsState),
    /// No state was pending.
    Agotado,
    /// The state taken was skipped or expanded; the search goes on.
    Continua,
}

pub struct Strips {
    estados: VecDeque<StripsState>,
    visitados: ConjuntoClaves,
    acciones_disponibles: Apilar,
    objetivo_meta: Vec<Meta>,
    inicio: Ghost<EstadoVista>,
}

/// `v` extends the solution of `ini`, and the moves it added lead, each one
/// executable where it stands, from the facts of `ini` to the facts of `v`.
pub open spec fn alcanzable(ini: EstadoVista, v: EstadoVista) -> bool {
    let n = ini.solucion.len() as int;
    &&& v.solucion.len() >= n
    &&& v.solucion.take(n) == ini.solucion
    &&& plan_aplicado(ini.recursos, v.solucion.skip(n)) == Some(v.recursos)
}

/// The state with one more entry on its goal stack.
pub open spec fn con_tope(v: EstadoVista, e: Stackeable) -> EstadoVista {
    EstadoVista { pila: v.pila.push(e), recursos: v.recursos, solucion: v.solucion }
}

/// The state with its top goal popped.
pub open spec fn sin_meta(v: EstadoVista) -> EstadoVista {
    EstadoVista { pila: sin_tope(v.pila), recursos: v.recursos, solucion: v.solucion }
}

/// The state after carrying out the move `a` (see `Apilar::aplica_accion`).
pub open spec fn aplicado(a: Apilar, v: EstadoVista) -> EstadoVista {
    EstadoVista {
        pila: sin_tope(v.pila),
        recursos: a.efecto(v.recursos),
        solucion: v.solucion.push(a),
    }
}

/// The state with the preconditions of `a` pushed as goals (see `Apilar::add_prerequisitos`).
pub open spec fn con_prerrequisitos(a: Apilar, v: EstadoVista) -> EstadoVista {
    EstadoVista {
        pila: v.pila + seq![
            Stackeable::Objetivo(Meta::Menor(a.x, a.z)),
            Stackeable::Objetivo(Meta::Sobre(a.x, a.y)),
            Stackeable::Conjuncion([a.x, a.z]),
        ],
        recursos: v.recursos,
        solucion: v.solucion,
    }
}

/// The state with its top entry replaced by the goals `m0` and then `m1`.
pub open spec fn con_metas(v: EstadoVista, m0: Meta, m1: Meta) -> EstadoVista {
    EstadoVista {
        pila: sin_tope(v.pila).push(Stackeable::Objetivo(m0)).push(Stackeable::Objetivo(m1)),
        recursos: v.recursos,
        solucion: v.solucion,
    }
}

/// The views of a sequence of states.
pub open spec fn vistas(s: Seq<StripsState>) -> Seq<EstadoVista> {
    s.map_values(|e: StripsState| e@)
}

/// The pending states `despues` after expanding the state `v` on top of the
/// pending states `antes`, by the top entry of its goal stack:
/// - an action is carried out when it is executable, else its preconditions
///   become goals;
/// - a goal that holds is popped; one that stands lower in the stack too is
///   dropped; otherwise every move worth trying is pushed as an action, one
///   new state each, in the order that `genera_posibilidades` gives;
/// - a conjunction that holds is popped; one with a part that stands lower in
///   the stack is dropped; otherwise both orders of its parts become goals.
pub open spec fn expansion(antes: Seq<EstadoVista>, v: EstadoVista, despues: Seq<EstadoVista>) -> bool {
    match v.pila.last() {
        Stackeable::Accion(a) => if a.ejecutable_en(v.recursos) {
            despues == antes.push(aplicado(a, v))
        } else {
            despues == antes.push(con_prerrequisitos(a, v))
        },
        Stackeable::Objetivo(m) => if v.recursos.contains(m.clave()) {
            despues == antes.push(sin_meta(v))
        } else if objetivo_debajo(v.pila, m) {
            despues == antes
        } else {
            exists|p: Seq<Apilar>|
                posibilidades_validas(m, v, p) && despues == antes + p.map_values(
                    |a: Apilar| con_tope(v, Stackeable::Accion(a)),
                )
        },
        Stackeable::Conjuncion(c) => {
            let m0 = Meta::Despejado(c[0]);
            let m1 = Meta::Despejado(c[1]);
            if v.recursos.contains(m0.clave()) && v.recursos.contains(m1.clave()) {
                despues == antes.push(sin_meta(v))
            } else if objetivo_debajo(v.pila, m0) || objetivo_debajo(v.pila, m1) {
                despues == antes
            } else {
                despues == antes.push(con_metas(v, m0, m1)).push(con_metas(v, m1, m0))
            }
        },
    }
}

/// The view of an optional state.
pub open spec fn vista_opcional(r: Option<StripsState>) -> Option<EstadoVista> {
    match r {
        Some(st) => Some(st@),
        None => None,
    }
}

/// Whether a search with the pending states `pendientes` (the last one is taken
/// next) and the visited keys `visitados` may come to the result `r` within
/// `pasos` steps, each step as `Strips::paso` takes it: `None` when the steps
/// run out or nothing is pending; the state taken when its goal stack is empty;
/// otherwise the state is skipped when its key was visited, or else expanded
/// (see `expansion`) and its key recorded, and the search goes on.
pub open spec fn puede_devolver(
    pendientes: Seq<EstadoVista>,
    visitados: Set<(Seq<Codigo>, Seq<Clave>)>,
    pasos: nat,
    r: Option<EstadoVista>,
) -> bool
    decreases pasos,
{
    if pasos == 0 || pendientes.len() == 0 {
        r is None
    } else {
        let v = pendientes.last();
        let resto = pendientes.drop_last();
        if v.pila.len() == 0 {
            r == Some(v)
        } else if visitados.contains(clave_vista(v)) {
            puede_devolver(resto, visitados, (pasos - 1) as nat, r)
        } else {
            exists|d: Seq<EstadoVista>|
                expansion(resto, v, d) && puede_devolver(
                    d,
                    visitados.insert(clave_vista(v)),
                    (pasos - 1) as nat,
                    r,
                )
        }
    }
}

/// A step of the search that expands the state taken in one way only, into `d`.
pub proof fn paso_forzado(
    pend: Seq<EstadoVista>,
    vis: Set<(Seq<Codigo>, Seq<Clave>)>,
    k: nat,
    r: Option<EstadoVista>,
    d: Seq<EstadoVista>,
)
    requires
        k > 0,
        pend.len() > 0,
        pend.last().pila.len() > 0,
        !vis.contains(clave_vista(pend.last())),
        puede_devolver(pend, vis, k, r),
        forall|e: Seq<EstadoVista>| #[trigger] expansion(pend.drop_last(), pend.last(), e) ==> e == d,
    ensures
        puede_devolver(d, vis.insert(clave_vista(pend.last())), (k - 1) as nat, r),
{
    let e = choose|e: Seq<EstadoVista>|
        expansion(pend.drop_last(), pend.last(), e) && puede_devolver(
            e,
            vis.insert(clave_vista(pend.last())),
            (k - 1) as nat,
            r,
        );
    assert(e == d);
}

/// A step of the search that expands the state taken into `d1` or into `d2`.
pub proof fn paso_doble(
    pend: Seq<EstadoVista>,
    vis: Set<(Seq<Codigo>, Seq<Clave>)>,
    k: nat,
    r: Option<EstadoVista>,
    d1: Seq<EstadoVista>,
    d2: Seq<EstadoVista>,
)
    requires
        k > 0,
        pend.len() > 0,
        pend.last().pila.len() > 0,
        !vis.contains(clave_vista(pend.last())),
        puede_devolver(pend, vis, k, r),
        forall|e: Seq<EstadoVista>|
            #[trigger] expansion(pend.drop_last(), pend.last(), e) ==> e == d1 || e == d2,
    ensures
        puede_devolver(d1, vis.insert(clave_vista(pend.last())), (k - 1) as nat, r) || puede_devolver(
            d2,
            vis.insert(clave_vista(pend.last())),
            (k - 1) as nat,
            r,
        ),
{
    let e = choose|e: Seq<EstadoVista>|
        expansion(pend.drop_last(), pend.last(), e) && puede_devolver(
            e,
            vis.insert(clave_vista(pend.last())),
            (k - 1) as nat,
            r,
        );
    assert(e == d1 || e == d2);
}

/// The state taken has no goal left: it is the result.
pub proof fn paso_final(
    pend: Seq<EstadoVista>,
    vis: Set<(Seq<Codigo>, Seq<Clave>)>,
    k: nat,
    r: Option<EstadoVista>,
)
    requires
        k > 0,
        pend.len() > 0,
        pend.last().pila.len() == 0,
        puede_devolver(pend, vis, k, r),
    ensures
        r == Some(pend.last()),
{
}

/// Carrying out an executable move keeps a state reachable.
proof fn alcanzable_aplicado(ini: EstadoVista, a: Apilar, v: EstadoVista)
    requires
        alcanzable(ini, v),
        a.ejecutable_en(v.recursos),
    ensures
        alcanzable(ini, aplicado(a, v)),
{
    let n = ini.solucion.len() as int;
    let s2 = v.solucion.push(a);
    assert(s2.take(n) =~= v.solucion.take(n));
    assert(s2.skip(n) =~= v.solucion.skip(n).push(a));
    assert(s2.skip(n).drop_last() =~= v.solucion.skip(n));
}

/// The goal `g` lies at the bottom of the goal stack of `v`, or the stack is
/// empty and `g` holds.
pub open spec fn con_fondo(g: Meta, v: EstadoVista) -> bool {
    if v.pila.len() == 0 {
        v.recursos.contains(g.clave())
    } else {
        v.pila[0] == Stackeable::Objetivo(g)
    }
}

/// Expanding a state with the goal `g` at the bottom of its goal stack gives
/// only such states, or states with an empty stack in which `g` holds.
proof fn expansion_con_fondo(g: Meta, antes: Seq<EstadoVista>, v: EstadoVista, d: Seq<EstadoVista>)
    requires
        v.pila.len() > 0,
        con_fondo(g, v),
        forall|i: int| 0 <= i < antes.len() ==> con_fondo(g, #[trigger] antes[i]),
        expansion(antes, v, d),
    ensures
        forall|i: int| 0 <= i < d.len() ==> con_fondo(g, #[trigger] d[i]),
{
    match v.pila.last() {
        Stackeable::Accion(a) => {
            assert(v.pila.len() >= 2);
            let w = if a.ejecutable_en(v.recursos) {
                aplicado(a, v)
            } else {
                con_prerrequisitos(a, v)
            };
            assert(w.pila[0] == v.pila[0]);
            assert forall|i: int| 0 <= i < d.len() implies con_fondo(g, #[trigger] d[i]) by {
                if i < antes.len() {
                    assert(d[i] == antes[i]);
                } else {
                    assert(d[i] == w);
                }
            }
        },
        Stackeable::Objetivo(m) => {
            if v.recursos.contains(m.clave()) {
                let w = sin_meta(v);
                if v.pila.len() == 1 {
                    assert(v.pila[0] == v.pila.last());
                    assert(w.pila.len() == 0);
                } else {
                    assert(w.pila[0] == v.pila[0]);
                }
                assert forall|i: int| 0 <= i < d.len() implies con_fondo(g, #[trigger] d[i]) by {
                    if i < antes.len() {
                        assert(d[i] == antes[i]);
                    } else {
                        assert(d[i] == w);
                    }
                }
            } else if objetivo_debajo(v.pila, m) {
            } else {
                let p = choose|p: Seq<Apilar>|
                    posibilidades_validas(m, v, p) && d == antes + p.map_values(
                        |b: Apilar| con_tope(v, Stackeable::Accion(b)),
                    );
                assert forall|i: int| 0 <= i < d.len() implies con_fondo(g, #[trigger] d[i]) by {
                    if i < antes.len() {
                        assert(d[i] == antes[i]);
                    } else {
                        let w = con_tope(v, Stackeable::Accion(p[i - antes.len()]));
                        assert(d[i] == w);
                        assert(w.pila[0] == v.pila[0]);
                    }
                }
            }
        },
        Stackeable::Conjuncion(c) => {
            assert(v.pila.len() >= 2);
            let m0 = Meta::Despejado(c[0]);
            let m1 = Meta::Despejado(c[1]);
            if v.recursos.contains(m0.clave()) && v.recursos.contains(m1.clave()) {
                let w = sin_meta(v);
                assert(w.pila[0] == v.pila[0]);
                assert forall|i: int| 0 <= i < d.len() implies con_fondo(g, #[trigger] d[i]) by {
                    if i < antes.len() {
                        assert(d[i] == antes[i]);
                    } else {
                        assert(d[i] == w);
                    }
                }
            } else if objetivo_debajo(v.pila, m0) || objetivo_debajo(v.pila, m1) {
            } else {
                let w0 = con_metas(v, m0, m1);
                let w1 = con_metas(v, m1, m0);
                assert(w0.pila[0] == v.pila[0]);
                assert(w1.pila[0] == v.pila[0]);
                assert forall|i: int| 0 <= i < d.len() implies con_fondo(g, #[trigger] d[i]) by {
                    if i < antes.len() {
                        assert(d[i] == antes[i]);
                    } else if i == antes.len() {
                        assert(d[i] == w0);
                    } else {
                        assert(d[i] == w1);
                    }
                }
            }
        },
    }
}

/// A goal at the bottom of the goal stack holds in every state the search
/// returns: when every pending state has the goal `g` at the bottom of its
/// goal stack (or an empty stack and `g` holding), a state the search returns
/// holds `g`.
pub proof fn devuelve_con_fondo(
    g: Meta,
    pend: Seq<EstadoVista>,
    vis: Set<(Seq<Codigo>, Seq<Clave>)>,
    k: nat,
    r: Option<EstadoVista>,
)
    requires
        forall|i: int| 0 <= i < pend.len() ==> con_fondo(g, #[trigger] pend[i]),
        puede_devolver(pend, vis, k, r),
    ensures
        r is Some ==> r->0.recursos.contains(g.clave()),
    decreases k,
{
    if k == 0 || pend.len() == 0 {
    } else {
        let v = pend.last();
        let resto = pend.drop_last();
        assert(con_fondo(g, pend[pend.len() - 1]));
        assert forall|i: int| 0 <= i < resto.len() implies con_fondo(g, #[trigger] resto[i]) by {
            assert(resto[i] == pend[i]);
        }
        if v.pila.len() == 0 {
        } else if vis.contains(clave_vista(v)) {
            devuelve_con_fondo(g, resto, vis, (k - 1) as nat, r);
        } else {
            let d = choose|d: Seq<EstadoVista>|
                expansion(resto, v, d) && puede_devolver(
                    d,
                    vis.insert(clave_vista(v)),
                    (k - 1) as nat,
                    r,
                );
            expansion_con_fondo(g, resto, v, d);
            devuelve_con_fondo(g, d, vis.insert(clave_vista(v)), (k - 1) as nat, r);
        }
    }
}

impl Strips {
    /// The pending states; the last one is taken next.
    pub closed spec fn pendientes(&self) -> Seq<EstadoVista> {
        vistas(self.estados@)
    }

    /// The keys of the states already expanded.
    pub closed spec fn visitados(&self) -> Set<(Seq<Codigo>, Seq<Clave>)> {
        contenido_claves(self.visitados)
    }

    /// The state the search started from.
    pub closed spec fn inicio(&self) -> EstadoVista {
        self.inicio@
    }

    /// The move kept as the available action.
    pub closed spec fn acciones(&self) -> Apilar {
        self.acciones_disponibles
    }

    /// The goal facts kept with the search.
    pub closed spec fn objetivo(&self) -> Seq<Meta> {
        self.objetivo_meta@
    }

    /// Every pending state is reachable from the start.
    pub closed spec fn bien_formado(&self) -> bool {
        forall|i: int| 0 <= i < self.estados@.len() ==> alcanzable(self.inicio@, #[trigger] self.estados@[i]@)
    }

    /// A search from `estado_inicial`, with nothing visited yet. `acciones` and
    /// `meta` are kept as given; `n_discos` only sizes the set of visited states.
    pub fn new(estado_inicial: StripsState, acciones: Apilar, meta: Vec<Meta>, n_discos: i8) -> (s: Strips)
        ensures
            s.bien_formado(),
            s.inicio() == estado_inicial@,
            s.pendientes() == seq![estado_inicial@],
            s.visitados() == Set::<(Seq<Codigo>, Seq<Clave>)>::empty(),
            s.acciones() == acciones,
            s.objetivo() == meta@,
    {
        let n: usize = if n_discos >= 1 {
            n_discos as usize
        } else {
            0
        };
        let visitados_size = tamano_tabla(&VISITADOS_SIZE, n);
        let ghost ini = estado_inicial@;
        let mut estados: VecDeque<StripsState> = VecDeque::with_capacity(2693);
        estados.push_back(estado_inicial);
        let s = Strips {
            estados,
            visitados: ConjuntoClaves::con_capacidad(visitados_size),
            acciones_disponibles: acciones,
            objetivo_meta: meta,
            inicio: Ghost(ini),
        };
        proof {
            let k = ini.solucion.len() as int;
            assert(ini.solucion.take(k) =~= ini.solucion);
            assert(ini.solucion.skip(k) =~= Seq::<Apilar>::empty());
            assert(s.estados@[0]@ == ini);
            assert(s.pendientes() =~= seq![ini]);
        }
        s
    }

    /// One step of the search: takes the last pending state; returns it when its
    /// goal stack is empty; skips it when a state with the same key was
    /// expanded before; otherwise expands it and records its key.
    pub fn paso(&mut self) -> (r: Paso)
        ensures
            old(self).bien_formado() ==> final(self).bien_formado(),
            final(self).inicio() == old(self).inicio(),
            final(self).acciones() == old(self).acciones(),
            final(self).objetivo() == old(self).objetivo(),
            match r {
                Paso::Agotado => {
                    &&& old(self).pendientes().len() == 0
                    &&& final(self).pendientes() == old(self).pendientes()
                    &&& final(self).visitados() == old(self).visitados()
                },
                Paso::Solucion(st) => {
                    &&& old(self).pendientes().len() > 0
                    &&& st@ == old(self).pendientes().last()
                    &&& st@.pila.len() == 0
                    &&& old(self).bien_formado() ==> alcanzable(old(self).inicio(), st@)
                    &&& final(self).pendientes() == old(self).pendientes().drop_last()
                    &&& final(self).visitados() == old(self).visitados()
                },
                Paso::Continua => {
                    let v = old(self).pendientes().last();
                    &&& old(self).pendientes().len() > 0
                    &&& v.pila.len() > 0
                    &&& if old(self).visitados().contains(clave_vista(v)) {
                        &&& final(self).pendientes() == old(self).pendientes().drop_last()
                        &&& final(self).visitados() == old(self).visitados()
                    } else {
                        &&& final(self).visitados() == old(self).visitados().insert(clave_vista(v))
                        &&& expansion(old(self).pendientes().drop_last(), v, final(self).pendientes())
                    }
                },
            },
    {
        let ghost previos = self.estados@;
        let estado_actual = match self.estados.pop_back() {
            Some(e) => e,
            None => {
                return Paso::Agotado;
            },
        };
        proof {
            assert(self.estados@ == previos.drop_last());
            assert(estado_actual == previos.last());
            assert(vistas(previos).last() == estado_actual@);
            assert(self.pendientes() =~= vistas(previos).drop_last());
            if old(self).bien_formado() {
                assert(alcanzable(self.inicio@, previos[previos.len() - 1]@));
                assert forall|i: int| 0 <= i < self.estados@.len() implies alcanzable(
                    self.inicio@,
                    #[trigger] self.estados@[i]@,
                ) by {
                    assert(self.estados@[i] == previos[i]);
                }
            }
        }
        if estado_actual.stack_objetivos.len() == 0 {
            return Paso::Solucion(estado_actual);
        }
        let clave = estado_actual.clave();
        if self.visitados.contiene(&clave) {
            return Paso::Continua;
        }
        self.prueba_estado(&estado_actual);
        self.visitados.inserta(clave);
        Paso::Continua
    }

    /// Runs the search for at most `max_pasos` steps. Returns the first state
    /// taken whose goal stack is empty, or `None` when no state was pending any
    /// more or the steps ran out. Whatever it returns was reached from the start
    /// by its moves (see `alcanzable`), and is a result that the steps of
    /// `paso` can come to (see `puede_devolver`).
    pub fn resolver(self, max_pasos: u64) -> (r: Option<StripsState>)
        ensures
            match r {
                Some(st) => st@.pila.len() == 0 && (self.bien_formado() ==> alcanzable(
                    self.inicio(),
                    st@,
                )),
                None => true,
            },
            max_pasos == 0 ==> r is None,
            self.pendientes().len() == 0 ==> r is None,
            max_pasos > 0 && self.pendientes().len() > 0 && self.pendientes().last().pila.len() == 0
                ==> r is Some && r->0@ == self.pendientes().last(),
            puede_devolver(self.pendientes(), self.visitados(), max_pasos as nat, vista_opcional(r)),
    {
        let ghost ini = self.inicio();
        let ghost inicial = self.pendientes();
        let ghost vis_inicial = self.visitados();
        let mut busqueda = self;
        let mut pasos: u64 = 0;
        while pasos < max_pasos
            invariant
                self.bien_formado() ==> busqueda.bien_formado(),
                busqueda.inicio() == ini,
                ini == self.inicio(),
                inicial == self.pendientes(),
                pasos == 0 ==> busqueda.pendientes() == inicial,
                pasos > 0 ==> inicial.len() > 0 && inicial.last().pila.len() > 0,
                vis_inicial == self.visitados(),
                pasos <= max_pasos,
                forall|x: Option<EstadoVista>|
                    puede_devolver(
                        busqueda.pendientes(),
                        busqueda.visitados(),
                        (max_pasos - pasos) as nat,
                        x,
                    ) ==> puede_devolver(inicial, vis_inicial, max_pasos as nat, x),
            decreases max_pasos - pasos,
        {
            let ghost antes = busqueda.pendientes();
            let ghost vis_antes = busqueda.visitados();
            let ghost k = (max_pasos - pasos) as nat;
            match busqueda.paso() {
                Paso::Solucion(st) => {
                    assert(puede_devolver(antes, vis_antes, k, Some(st@)));
                    return Some(st);
                },
                Paso::Agotado => {
                    assert(puede_devolver(antes, vis_antes, k, None));
                    return None;
                },
                Paso::Continua => {
                    proof {
                        let despues = busqueda.pendientes();
                        let vis_despues = busqueda.visitados();
                        assert forall|x: Option<EstadoVista>|
                            puede_devolver(despues, vis_despues, (k - 1) as nat, x) implies puede_devolver(
                            antes,
                            vis_antes,
                            k,
                            x,
                        ) by {
                            let v = antes.last();
                            if !vis_antes.contains(clave_vista(v)) {
                                assert(expansion(antes.drop_last(), v, despues) && puede_devolver(
                                    despues,
                                    vis_antes.insert(clave_vista(v)),
                                    (k - 1) as nat,
                                    x,
                                ));
                            }
                        }
                    }
                },
            }
            pasos = pasos + 1;
        }
        assert(puede_devolver(busqueda.pendientes(), busqueda.visitados(), 0, None));
        None
    }

    /// Expands the state `estado_actual`, taken from the pending states, by the
    /// top entry of its goal stack; the new states are pushed on the pending
    /// ones (see `expansion`).
    pub fn prueba_estado(&mut self, estado_actual: &StripsState)
        requires
            estado_actual@.pila.len() > 0,
        ensures
            old(self).bien_formado() && alcanzable(old(self).inicio(), estado_actual@)
                ==> final(self).bien_formado(),
            final(self).inicio() == old(self).inicio(),
            final(self).acciones() == old(self).acciones(),
            final(self).objetivo() == old(self).objetivo(),
            final(self).visitados() == old(self).visitados(),
            expansion(old(self).pendientes(), estado_actual@, final(self).pendientes()),
    {
        let ghost v = estado_actual@;
        let ghost antes = self.pendientes();
        let elemento = estado_actual.stack_objetivos[estado_actual.stack_objetivos.len() - 1];
        assert(elemento == v.pila.last());
        let estado = match elemento {
            Stackeable::Accion(acc) => {
                let copia = if acc.es_ejecutable(estado_actual) {
                    let c = acc.aplica_accion(estado_actual);
                    proof {
                        if alcanzable(self.inicio@, v) {
                            alcanzable_aplicado(self.inicio@, acc, v);
                        }
                        assert(c@ == aplicado(acc, v));
                    }
                    c
                } else {
                    let c = acc.add_prerequisitos(estado_actual);
                    assert(c@ == con_prerrequisitos(acc, v));
                    c
                };
                self.empuja(copia);
                EstadoMeta::Acc
            },
            Stackeable::Objetivo(meta_actual) => self.meta_simple(estado_actual, meta_actual),
            Stackeable::Conjuncion(con) => self.meta_compuesta(estado_actual, con),
        };

        match estado {
            EstadoMeta::CumpleMeta => {
                let mut copia = estado_actual.copy();
                copia.stack_objetivos.pop_back();
                assert(copia@ == sin_meta(v));
                self.empuja(copia);
            },
            _ => {},
        }
    }

    /// Pushes a state that is reachable from the start on the pending states.
    fn empuja(&mut self, estado: StripsState)
        ensures
            old(self).bien_formado() && alcanzable(old(self).inicio(), estado@)
                ==> final(self).bien_formado(),
            final(self).inicio() == old(self).inicio(),
            final(self).acciones() == old(self).acciones(),
            final(self).objetivo() == old(self).objetivo(),
            final(self).visitados() == old(self).visitados(),
            final(self).pendientes() == old(self).pendientes().push(estado@),
    {
        let ghost e = estado@;
        self.estados.push_back(estado);
        proof {
            assert(self.estados@.last()@ == e);
            assert(self.pendientes() =~= old(self).pendientes().push(e));
            if old(self).bien_formado() && alcanzable(old(self).inicio(), e) {
                assert forall|i: int| 0 <= i < self.estados@.len() implies alcanzable(
                    self.inicio@,
                    #[trigger] self.estados@[i]@,
                ) by {
                    if i < old(self).estados@.len() {
                        assert(self.estados@[i] == old(self).estados@[i]);
                    }
                }
            }
        }
    }

    fn meta_simple(&mut self, estado_actual: &StripsState, meta_actual: Meta) -> (r: EstadoMeta)
        requires
            estado_actual@.pila.len() > 0,
        ensures
            old(self).bien_formado() && alcanzable(old(self).inicio(), estado_actual@)
                ==> final(self).bien_formado(),
            final(self).inicio() == old(self).inicio(),
            final(self).acciones() == old(self).acciones(),
            final(self).objetivo() == old(self).objetivo(),
            final(self).visitados() == old(self).visitados(),
            match r {
                EstadoMeta::CumpleMeta => estado_actual@.recursos.contains(meta_actual.clave())
                    && final(self).pendientes() == old(self).pendientes(),
                EstadoMeta::Bucle => !estado_actual@.recursos.contains(meta_actual.clave())
                    && objetivo_debajo(estado_actual@.pila, meta_actual) && final(self).pendientes()
                    == old(self).pendientes(),
                EstadoMeta::Igual => {
                    &&& !estado_actual@.recursos.contains(meta_actual.clave())
                    &&& !objetivo_debajo(estado_actual@.pila, meta_actual)
                    &&& posibilidades_validas(meta_actual, estado_actual@, Seq::empty())
                    &&& final(self).pendientes() == old(self).pendientes()
                },
                EstadoMeta::NuevosEstados => {
                    &&& !estado_actual@.recursos.contains(meta_actual.clave())
                    &&& !objetivo_debajo(estado_actual@.pila, meta_actual)
                    &&& exists|p: Seq<Apilar>|
                        posibilidades_validas(meta_actual, estado_actual@, p) && p.len() > 0
                            && final(self).pendientes() == old(self).pendientes() + p.map_values(
                            |a: Apilar| con_tope(estado_actual@, Stackeable::Accion(a)),
                        )
                },
                EstadoMeta::Acc => false,
            },
    {
        if estado_actual.cumple_meta(meta_actual) {
            return EstadoMeta::CumpleMeta;
        }
        if Strips::hay_bucle(estado_actual, &meta_actual) {
            return EstadoMeta::Bucle;
        }
        let ghost v = estado_actual@;
        let mut siguientes_estados: VecDeque<StripsState> = VecDeque::new();
        let posibilidades = self.acciones_disponibles.genera_posibilidades(meta_actual, estado_actual);
        let ghost nuevos = posibilidades@.map_values(|a: Apilar| con_tope(v, Stackeable::Accion(a)));
        let mut i: usize = 0;
        while i < posibilidades.len()
            invariant
                i <= posibilidades@.len(),
                v == estado_actual@,
                nuevos == posibilidades@.map_values(|a: Apilar| con_tope(v, Stackeable::Accion(a))),
                vistas(siguientes_estados@) == nuevos.take(i as int),
                siguientes_estados@.len() == i,
            decreases posibilidades@.len() - i,
        {
            let mut copia = estado_actual.copy();
            copia.stack_objetivos.push_back(Stackeable::Accion(posibilidades[i]));
            let ghost c = copia@;
            assert(c == nuevos[i as int]);
            let ghost previos = siguientes_estados@;
            siguientes_estados.push_back(copia);
            proof {
                assert forall|k: int| 0 <= k < i + 1 implies vistas(siguientes_estados@)[k]
                    == nuevos.take(i + 1)[k] by {
                    if k < i {
                        assert(siguientes_estados@[k] == previos[k]);
                        assert(vistas(previos)[k] == nuevos.take(i as int)[k]);
                    }
                }
                assert(vistas(siguientes_estados@) =~= nuevos.take(i + 1));
            }
            i = i + 1;
        }
        assert(nuevos.take(posibilidades@.len() as int) =~= nuevos);
        if siguientes_estados.len() == 0 {
            assert(posibilidades@ =~= Seq::<Apilar>::empty());
            assert(old(self).pendientes() + nuevos =~= old(self).pendientes());
            EstadoMeta::Igual
        } else {
            let ghost previos = self.estados@;
            let ghost agregados = siguientes_estados@;
            self.estados.append(&mut siguientes_estados);
            proof {
                assert(self.estados@ == previos + agregados);
                assert(self.pendientes() =~= old(self).pendientes() + nuevos);
                if old(self).bien_formado() && alcanzable(old(self).inicio(), v) {
                    assert forall|k: int| 0 <= k < self.estados@.len() implies alcanzable(
                        self.inicio@,
                        #[trigger] self.estados@[k]@,
                    ) by {
                        if k < previos.len() {
                            assert(self.estados@[k] == previos[k]);
                        } else {
                            assert(self.estados@[k] == agregados[k - previos.len()]);
                            assert(vistas(agregados)[k - previos.len()] == nuevos[k - previos.len()]);
                        }
                    }
                }
            }
            EstadoMeta::NuevosEstados
        }
    }

    fn meta_compuesta(&mut self, estado_actual: &StripsState, conj: [i8; 2]) -> (r: EstadoMeta)
        requires
            estado_actual@.pila.len() > 0,
        ensures
            old(self).bien_formado() && alcanzable(old(self).inicio(), estado_actual@)
                ==> final(self).bien_formado(),
            final(self).inicio() == old(self).inicio(),
            final(self).acciones() == old(self).acciones(),
            final(self).objetivo() == old(self).objetivo(),
            final(self).visitados() == old(self).visitados(),
            ({
                let v = estado_actual@;
                let m0 = Meta::Despejado(conj[0]);
                let m1 = Meta::Despejado(conj[1]);
                let ambos = v.recursos.contains(m0.clave()) && v.recursos.contains(m1.clave());
                let bucle = objetivo_debajo(v.pila, m0) || objetivo_debajo(v.pila, m1);
                match r {
                    EstadoMeta::CumpleMeta => ambos && final(self).pendientes() == old(self).pendientes(),
                    EstadoMeta::Bucle => !ambos && bucle && final(self).pendientes() == old(self).pendientes(),
                    EstadoMeta::NuevosEstados => !ambos && !bucle && final(self).pendientes() == old(
                        self,
                    ).pendientes().push(con_metas(v, m0, m1)).push(con_metas(v, m1, m0)),
                    _ => false,
                }
            }),
    {
        let ghost v = estado_actual@;
        let conj: [Meta; 2] = [Meta::Despejado(conj[0]), Meta::Despejado(conj[1])];

        if estado_actual.cumple_conjuncion(&conj) {
            assert(conj@[0].clave() == conj[0].clave());
            assert(conj@[1].clave() == conj[1].clave());
            return EstadoMeta::CumpleMeta;
        }
        proof {
            if v.recursos.contains(conj[0].clave()) && v.recursos.contains(conj[1].clave()) {
                assert forall|i: int| 0 <= i < conj@.len() implies v.recursos.contains(
                    #[trigger] conj@[i].clave(),
                ) by {
                    if i == 0 {
                        assert(conj@[0] == conj[0]);
                    } else {
                        assert(conj@[1] == conj[1]);
                    }
                }
            }
        }

        if Strips::hay_bucle(estado_actual, &conj[0]) || Strips::hay_bucle(estado_actual, &conj[1]) {
            return EstadoMeta::Bucle;
        }

        let permutaciones: [[Meta; 2]; 2] = [[conj[0], conj[1]], [conj[1], conj[0]]];

        let mut copia = estado_actual.copy();
        copia.stack_objetivos.pop_back();
        copia.add_metas(permutaciones[0]);
        assert(copia@ == con_metas(v, conj[0], conj[1]));
        self.empuja(copia);

        let mut copia = estado_actual.copy();
        copia.stack_objetivos.pop_back();
        copia.add_metas(permutaciones[1]);
        assert(copia@ == con_metas(v, conj[1], conj[0]));
        self.empuja(copia);

        EstadoMeta::NuevosEstados
    }

    fn hay_bucle(estado_actual: &StripsState, meta_actual: &Meta) -> (r: bool)
        requires
            estado_actual@.pila.len() > 0,
        ensures
            r == objetivo_debajo(estado_actual@.pila, *meta_actual),
    {
        estado_actual.cumple_meta_bucle(*meta_actual)
    }
}

} // verus!
