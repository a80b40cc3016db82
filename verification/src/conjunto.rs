//! The hash sets of the planner.
//!
//! Both sets are `hashbrown::HashSet`s of plain values (tuples of integers and
//! vectors of them), whose `Hash` and `Eq` are those of std. Each set lives in
//! a private field of a struct that Verus does not look into; what the set holds
//! is named by an uninterpreted spec function, and every operation that the
//! planner uses is a small trusted wrapper whose contract is stated over that
//! name.
use vstd::prelude::*;

verus! {

/// The key under which a fact (`Meta`) is stored: a variant tag and two numbers.
pub type Clave = (u8, i8, i8);

/// The key of one entry of a goal stack: a variant tag and three numbers.
pub type Codigo = (u8, i8, i8, i8);

/// The key of a whole search state: its goal stack and its facts in increasing order.
pub type ClaveEstado = (Vec<Codigo>, Vec<Clave>);

/// A set of facts, held in a `hashbrown::HashSet<Clave>`.
#[verifier::external_body]
pub struct ConjuntoMetas {
    tabla: hashbrown::HashSet<Clave>,
}

/// What a `ConjuntoMetas` holds.
pub uninterp spec fn contenido(c: ConjuntoMetas) -> Set<Clave>;

/// A set of visited search states, held in a `hashbrown::HashSet<ClaveEstado>`.
#[verifier::external_body]
pub struct ConjuntoClaves {
    tabla: hashbrown::HashSet<ClaveEstado>,
}

/// What a `ConjuntoClaves` holds, each key taken by the views of its two vectors.
pub uninterp spec fn contenido_claves(c: ConjuntoClaves) -> Set<(Seq<Codigo>, Seq<Clave>)>;

impl ConjuntoMetas {
    /// Calls `hashbrown::HashSet::with_capacity`: the new set is empty (the
    /// capacity is only a hint for the allocation).
    #[verifier::external_body]
    pub(crate) fn con_capacidad(capacidad: usize) -> (r: ConjuntoMetas)
        ensures
            contenido(r) == Set::<Clave>::empty(),
    {
        ConjuntoMetas { tabla: hashbrown::HashSet::with_capacity(capacidad) }
    }

    /// Calls `hashbrown::HashSet::contains`: true exactly when the key is in the set.
    #[verifier::external_body]
    pub(crate) fn contiene(&self, k: Clave) -> (r: bool)
        ensures
            r == contenido(*self).contains(k),
    {
        self.tabla.contains(&k)
    }

    /// Calls `hashbrown::HashSet::insert`: the key is in the set afterwards, nothing
    /// else changes, and the result says whether it was absent before.
    #[verifier::external_body]
    pub(crate) fn inserta(&mut self, k: Clave) -> (r: bool)
        ensures
            contenido(*final(self)) == contenido(*old(self)).insert(k),
            r == !contenido(*old(self)).contains(k),
    {
        self.tabla.insert(k)
    }

    /// Calls `hashbrown::HashSet::remove`: the key is not in the set afterwards,
    /// nothing else changes, and the result says whether it was present before.
    #[verifier::external_body]
    pub(crate) fn quita(&mut self, k: Clave) -> (r: bool)
        ensures
            contenido(*final(self)) == contenido(*old(self)).remove(k),
            r == contenido(*old(self)).contains(k),
    {
        self.tabla.remove(&k)
    }

    /// Calls `hashbrown::HashSet::is_subset`: true exactly when every key of
    /// `self` is in `otro`.
    #[verifier::external_body]
    pub(crate) fn es_subconjunto(&self, otro: &ConjuntoMetas) -> (r: bool)
        ensures
            r == contenido(*self).subset_of(contenido(*otro)),
    {
        self.tabla.is_subset(&otro.tabla)
    }

    /// Walks the set with `hashbrown::HashSet::iter` and collects the keys: each
    /// key of the set comes out exactly once, in an order that the contract
    /// leaves open (it depends on the hashes).
    #[verifier::external_body]
    pub(crate) fn elementos(&self) -> (r: Vec<Clave>)
        ensures
            r@.no_duplicates(),
            r@.to_set() == contenido(*self),
    {
        self.tabla.iter().copied().collect()
    }

    /// Calls `Clone::clone` of `hashbrown::HashSet`: the copy holds the same keys.
    #[verifier::external_body]
    pub(crate) fn copia(&self) -> (r: ConjuntoMetas)
        ensures
            contenido(r) == contenido(*self),
    {
        ConjuntoMetas { tabla: self.tabla.clone() }
    }
}

impl ConjuntoClaves {
    /// Calls `hashbrown::HashSet::with_capacity`: the new set is empty.
    #[verifier::external_body]
    pub(crate) fn con_capacidad(capacidad: usize) -> (r: ConjuntoClaves)
        ensures
            contenido_claves(r) == Set::<(Seq<Codigo>, Seq<Clave>)>::empty(),
    {
        ConjuntoClaves { tabla: hashbrown::HashSet::with_capacity(capacidad) }
    }

    /// Calls `hashbrown::HashSet::contains`: true exactly when the key is in the set.
    #[verifier::external_body]
    pub(crate) fn contiene(&self, k: &ClaveEstado) -> (r: bool)
        ensures
            r == contenido_claves(*self).contains((k.0@, k.1@)),
    {
        self.tabla.contains(k)
    }

    /// Calls `hashbrown::HashSet::insert`: the key is in the set afterwards and
    /// nothing else changes.
    #[verifier::external_body]
    pub(crate) fn inserta(&mut self, k: ClaveEstado)
        ensures
            contenido_claves(*final(self)) == contenido_claves(*old(self)).insert((k.0@, k.1@)),
    {
        self.tabla.insert(k);
    }
}

} // verus!
