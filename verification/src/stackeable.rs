//! The entries of a goal stack.
use crate::accion::{Apilar, Meta};
use crate::conjunto::Codigo;
use vstd::prelude::*;

verus! {

/// An entry of the goal stack: an action to carry out, a fact to reach, or
/// the conjunction "both places are clear".
#[derive(Clone, Copy, Hash, Debug)]
pub enum Stackeable {
    Accion(Apilar),
    Objetivo(Meta),
    Conjuncion([i8; 2]),
}

impl Stackeable {
    /// Whether the entry is an action.
    pub fn is_accion(&self) -> (r: bool)
        ensures
            r == (*self is Accion),
    {
        matches!(self, Self::Accion(_))
    }

    /// The key of the entry, by which search states are told apart.
    pub open spec fn codigo(self) -> Codigo {
        match self {
            Stackeable::Accion(a) => (3u8, a.x, a.y, a.z),
            Stackeable::Objetivo(m) => {
                let k = m.clave();
                (k.0, k.1, k.2, 0i8)
            },
            Stackeable::Conjuncion(c) => (4u8, c[0], c[1], 0i8),
        }
    }

    /// Computes the key of the entry.
    pub fn obtener_codigo(&self) -> (r: Codigo)
        ensures
            r == self.codigo(),
    {
        match *self {
            Stackeable::Accion(a) => (3u8, a.x, a.y, a.z),
            Stackeable::Objetivo(m) => {
                let k = m.obtener_clave();
                (k.0, k.1, k.2, 0i8)
            },
            Stackeable::Conjuncion(c) => (4u8, c[0], c[1], 0i8),
        }
    }
}

/// Different entries have different keys.
pub proof fn codigo_inyectivo(a: Stackeable, b: Stackeable)
    requires
        a.codigo() == b.codigo(),
    ensures
        a == b,
{
    match (a, b) {
        (Stackeable::Conjuncion(c), Stackeable::Conjuncion(d)) => {
            assert(c =~= d);
        },
        _ => {},
    }
}

impl PartialEq for Stackeable {
    fn eq(&self, other: &Self) -> (r: bool) {
        match (self, other) {
            (Stackeable::Accion(a), Stackeable::Accion(b)) => *a == *b,
            (Stackeable::Objetivo(a), Stackeable::Objetivo(b)) => *a == *b,
            (Stackeable::Conjuncion(a), Stackeable::Conjuncion(b)) => {
                let r = a[0] == b[0] && a[1] == b[1];
                proof {
                    if r {
                        assert(*a =~= *b);
                    }
                }
                r
            },
            _ => false,
        }
    }
}

impl Eq for Stackeable {
}

impl vstd::std_specs::cmp::PartialEqSpecImpl for Stackeable {
    open spec fn obeys_eq_spec() -> bool {
        true
    }

    open spec fn eq_spec(&self, other: &Self) -> bool {
        *self == *other
    }
}

} // verus!
