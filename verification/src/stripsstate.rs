//! A search state: the goal stack, the facts that hold, and the moves made so far.
use crate::accion::{Apilar, Meta};
use crate::conjunto::{contenido, Clave, ClaveEstado, Codigo, ConjuntoMetas};
use crate::orden::{ordena, ordenado, ordenado_existe};
use crate::stackeable::codigo_inyectivo;
use crate::stackeable::Stackeable;
use std::collections::VecDeque;
use vstd::prelude::*;

verus! {

const SOLUCION_SIZE: [usize; 14] = [1, 3, 7, 15, 31, 63, 127, 255, 511, 1023, 2047, 4095, 8191, 16383];

const STACK_SIZE: [usize; 14] = [2, 8, 14, 19, 24, 29, 34, 39, 44, 49, 54, 59, 64, 69];

const RECURSOS_SIZE: [usize; 14] = [7, 14, 28, 56, 56, 56, 112, 112, 112, 112, 224, 224, 224, 224];

/// What a search state stands for: its goal stack (the top is the last entry),
/// the keys of the facts that hold, and the moves made so far.
pub struct EstadoVista {
    pub pila: Seq<Stackeable>,
    pub recursos: Set<Clave>,
    pub solucion: Seq<Apilar>,
}

pub struct StripsState {
    pub stack_objetivos: VecDeque<Stackeable>,
    pub recursos: ConjuntoMetas,
    pub solucion: Vec<Apilar>,
}

impl View for StripsState {
    type V = EstadoVista;

    open spec fn view(&self) -> EstadoVista {
        EstadoVista {
            pila: self.stack_objetivos@,
            recursos: contenido(self.recursos),
            solucion: self.solucion@,
        }
    }
}

/// The key of a state in the set of visited states: the keys of its goal stack
/// entries, and its fact keys in increasing order.
pub open spec fn clave_vista(v: EstadoVista) -> (Seq<Codigo>, Seq<Clave>) {
    (v.pila.map_values(|e: Stackeable| e.codigo()), ordenado(v.recursos))
}

/// The comparison of `StripsState::eq`: the goal stacks are equal and every
/// fact of `a` holds in `b`.
pub open spec fn incluido(a: EstadoVista, b: EstadoVista) -> bool {
    a.pila == b.pila && a.recursos.subset_of(b.recursos)
}

/// The comparison looks at the goal stacks and the facts only: the moves made
/// so far play no part, and it holds exactly when the stacks are equal and the
/// facts of the first state are among those of the second.
pub proof fn incluido_sin_solucion(a: EstadoVista, b: EstadoVista, s1: Seq<Apilar>, s2: Seq<Apilar>)
    ensures
        incluido(a, b) <==> (a.pila == b.pila && a.recursos.subset_of(b.recursos)),
        incluido(a, b) == incluido(
            EstadoVista { pila: a.pila, recursos: a.recursos, solucion: s1 },
            EstadoVista { pila: b.pila, recursos: b.recursos, solucion: s2 },
        ),
{
}

/// Every state compares equal to itself.
pub proof fn incluido_reflexivo(a: EstadoVista)
    ensures
        incluido(a, a),
{
}

/// The comparison is transitive.
pub proof fn incluido_transitivo(a: EstadoVista, b: EstadoVista, c: EstadoVista)
    requires
        incluido(a, b),
        incluido(b, c),
    ensures
        incluido(a, c),
{
}

/// States that compare equal both ways have the same key.
pub proof fn incluido_mutuo_misma_clave(a: EstadoVista, b: EstadoVista)
    requires
        incluido(a, b),
        incluido(b, a),
    ensures
        clave_vista(a) == clave_vista(b),
{
    assert(a.recursos =~= b.recursos);
}

/// Two states have the same key exactly when their goal stacks and their facts
/// are equal: the set of visited states tells states apart as they are.
pub proof fn clave_identifica_estado(a: EstadoVista, b: EstadoVista)
    requires
        a.recursos.finite(),
        b.recursos.finite(),
    ensures
        (clave_vista(a) == clave_vista(b)) <==> (a.pila == b.pila && a.recursos == b.recursos),
{
    if clave_vista(a) == clave_vista(b) {
        ordenado_existe(a.recursos);
        ordenado_existe(b.recursos);
        let ca = a.pila.map_values(|e: Stackeable| e.codigo());
        let cb = b.pila.map_values(|e: Stackeable| e.codigo());
        assert(ca.len() == cb.len());
        assert forall|i: int| 0 <= i < a.pila.len() implies a.pila[i] == b.pila[i] by {
            assert(ca[i] == cb[i]);
            codigo_inyectivo(a.pila[i], b.pila[i]);
        }
        assert(a.pila =~= b.pila);
    }
}

/// The goal stack without its top entry (an empty stack stays empty).
pub open spec fn sin_tope(pila: Seq<Stackeable>) -> Seq<Stackeable> {
    if pila.len() > 0 {
        pila.drop_last()
    } else {
        pila
    }
}

/// Whether `Objetivo(meta)` stands in the goal stack below its top entry.
pub open spec fn objetivo_debajo(pila: Seq<Stackeable>, meta: Meta) -> bool {
    exists|i: int| 0 <= i < pila.len() - 1 && pila[i] == Stackeable::Objetivo(meta)
}

/// The entry of a size table for `n` disks, or twice its last entry when the
/// table has none for `n`.
pub open spec fn tamano(tabla: Seq<usize>, n: int) -> int {
    if 1 <= n <= tabla.len() {
        tabla[n - 1] as int
    } else {
        tabla.last() * 2
    }
}

/// Looks up a size table for `n` disks.
pub(crate) fn tamano_tabla(tabla: &[usize; 14], n: usize) -> (r: usize)
    requires
        tabla@.last() * 2 <= usize::MAX,
    ensures
        r == tamano(tabla@, n as int),
{
    if 1 <= n && n <= 14 {
        tabla[n - 1]
    } else {
        tabla[13] * 2
    }
}

impl StripsState {
    /// A state with the goal stack `objetivos` (its last entry on top), the facts
    /// `ea`, and no move made yet. `n_discos` only sizes the containers.
    pub fn new(ea: Vec<Meta>, objetivos: Vec<Stackeable>, n_discos: usize) -> (r: StripsState)
        ensures
            r@.pila == objetivos@,
            r@.recursos == ea@.map_values(|m: Meta| m.clave()).to_set(),
            r@.solucion == Seq::<Apilar>::empty(),
    {
        let stack_size = tamano_tabla(&STACK_SIZE, n_discos);
        let recursos_size = tamano_tabla(&RECURSOS_SIZE, n_discos);
        let solucion_size = tamano_tabla(&SOLUCION_SIZE, n_discos);

        let mut so: VecDeque<Stackeable> = VecDeque::with_capacity(stack_size);
        let mut i: usize = 0;
        while i < objetivos.len()
            invariant
                i <= objetivos.len(),
                so@ == objetivos@.take(i as int),
            decreases objetivos.len() - i,
        {
            so.push_back(objetivos[i]);
            i = i + 1;
            assert(so@ =~= objetivos@.take(i as int));
        }
        assert(objetivos@.take(objetivos.len() as int) =~= objetivos@);

        let ghost claves = ea@.map_values(|m: Meta| m.clave());
        let mut rec = ConjuntoMetas::con_capacidad(recursos_size);
        let mut j: usize = 0;
        while j < ea.len()
            invariant
                j <= ea.len(),
                claves == ea@.map_values(|m: Meta| m.clave()),
                contenido(rec) == claves.take(j as int).to_set(),
            decreases ea.len() - j,
        {
            let k = ea[j].obtener_clave();
            rec.inserta(k);
            proof {
                assert(claves.take(j + 1) =~= claves.take(j as int).push(k));
                claves.take(j as int).lemma_push_to_set_commute(k);
            }
            j = j + 1;
        }
        assert(claves.take(ea.len() as int) =~= claves);

        StripsState { stack_objetivos: so, solucion: Vec::with_capacity(solucion_size), recursos: rec }
    }

    /// Whether the fact holds.
    pub fn cumple_meta(&self, meta: Meta) -> (r: bool)
        ensures
            r == self@.recursos.contains(meta.clave()),
    {
        self.recursos.contiene(meta.obtener_clave())
    }

    /// Whether every one of the facts holds.
    pub fn cumple_conjuncion(&self, conjuncion: &[Meta]) -> (r: bool)
        ensures
            r == (forall|i: int|
                0 <= i < conjuncion@.len() ==> self@.recursos.contains(
                    #[trigger] conjuncion@[i].clave(),
                )),
    {
        let mut i: usize = 0;
        while i < conjuncion.len()
            invariant
                i <= conjuncion@.len(),
                forall|k: int| 0 <= k < i ==> self@.recursos.contains(#[trigger] conjuncion@[k].clave()),
            decreases conjuncion@.len() - i,
        {
            if !self.recursos.contiene(conjuncion[i].obtener_clave()) {
                return false;
            }
            i = i + 1;
        }
        true
    }

    /// Whether the goal `meta` already stands in the goal stack below its top
    /// entry: pursuing it again would go round in a loop.
    pub fn cumple_meta_bucle(&self, meta: Meta) -> (r: bool)
        requires
            self@.pila.len() > 0,
        ensures
            r == objetivo_debajo(self@.pila, meta),
    {
        let n = self.stack_objetivos.len() - 1;
        let mut i: usize = 0;
        while i < n
            invariant
                n == self@.pila.len() - 1,
                i <= n,
                forall|k: int| 0 <= k < i ==> self@.pila[k] != Stackeable::Objetivo(meta),
            decreases n - i,
        {
            let encontrado = match self.stack_objetivos[i] {
                Stackeable::Objetivo(m) => m == meta,
                _ => false,
            };
            if encontrado {
                return true;
            }
            i = i + 1;
        }
        false
    }

    /// Pushes both facts as goals, the first one first.
    pub fn add_metas(&mut self, metas: [Meta; 2])
        ensures
            final(self)@.pila == old(self)@.pila.push(Stackeable::Objetivo(metas[0])).push(
                Stackeable::Objetivo(metas[1]),
            ),
            final(self)@.recursos == old(self)@.recursos,
            final(self)@.solucion == old(self)@.solucion,
    {
        self.stack_objetivos.push_back(Stackeable::Objetivo(metas[0]));
        self.stack_objetivos.push_back(Stackeable::Objetivo(metas[1]));
    }

    /// An independent copy of the state.
    pub fn copy(&self) -> (r: StripsState)
        ensures
            r@ == self@,
    {
        let o_stack = self.stack_objetivos.clone();
        let o_rec = self.recursos.copia();
        let o_solucion = self.solucion.clone();
        assert(o_stack@ =~= self.stack_objetivos@);
        assert(o_solucion@ =~= self.solucion@);
        StripsState { solucion: o_solucion, recursos: o_rec, stack_objetivos: o_stack }
    }

    /// The key of the state in the set of visited states.
    pub fn clave(&self) -> (r: ClaveEstado)
        ensures
            (r.0@, r.1@) == clave_vista(self@),
    {
        let mut pila: Vec<Codigo> = Vec::new();
        let n = self.stack_objetivos.len();
        let mut i: usize = 0;
        while i < n
            invariant
                n == self@.pila.len(),
                i <= n,
                pila@ == self@.pila.take(i as int).map_values(|e: Stackeable| e.codigo()),
            decreases n - i,
        {
            pila.push(self.stack_objetivos[i].obtener_codigo());
            i = i + 1;
            assert(pila@ =~= self@.pila.take(i as int).map_values(|e: Stackeable| e.codigo()));
        }
        assert(self@.pila.take(n as int) =~= self@.pila);
        let elementos = self.recursos.elementos();
        let orden = ordena(&elementos);
        (pila, orden)
    }

    /// Whether the goal stacks are equal and every fact of `self` holds in `other`.
    pub fn eq(&self, other: &Self) -> (r: bool)
        ensures
            r == incluido(self@, other@),
            r == (self@.pila == other@.pila && self@.recursos.subset_of(other@.recursos)),
    {
        if self.stack_objetivos.len() != other.stack_objetivos.len() {
            return false;
        }
        let n = self.stack_objetivos.len();
        let mut i: usize = 0;
        while i < n
            invariant
                n == self@.pila.len(),
                n == other@.pila.len(),
                i <= n,
                forall|k: int| 0 <= k < i ==> self@.pila[k] == other@.pila[k],
            decreases n - i,
        {
            if self.stack_objetivos[i] != other.stack_objetivos[i] {
                return false;
            }
            i = i + 1;
        }
        assert(self@.pila =~= other@.pila);
        self.recursos.es_subconjunto(&other.recursos)
    }
}

} // verus!
