//! Facts about the puzzle and the one action that changes them.
use crate::conjunto::Clave;
use crate::stackeable::Stackeable;
use crate::stripsstate::{sin_tope, EstadoVista, StripsState};
use crate::texto::{anexa_numero, ancho_dos, decimal};
use vstd::prelude::*;

verus! {

/// A fact: disk `x` lies on `y` (`Sobre`), `x` is smaller than `y` (`Menor`),
/// or nothing lies on `x` (`Despejado`). Disks are positive numbers, pegs
/// negative ones.
#[derive(Clone, Copy, Hash, PartialEq, Eq, Structural, PartialOrd, Ord, Debug)]
pub enum Meta {
    Sobre(i8, i8),
    Menor(i8, i8),
    Despejado(i8),
}

impl Meta {
    /// The key under which the fact is stored in a set of facts.
    pub open spec fn clave(self) -> Clave {
        match self {
            Meta::Sobre(a, b) => (0u8, a, b),
            Meta::Menor(a, b) => (1u8, a, b),
            Meta::Despejado(a) => (2u8, a, 0i8),
        }
    }

    pub fn obtener_clave(&self) -> (r: Clave)
        ensures
            r == self.clave(),
    {
        match *self {
            Meta::Sobre(a, b) => (0u8, a, b),
            Meta::Menor(a, b) => (1u8, a, b),
            Meta::Despejado(a) => (2u8, a, 0i8),
        }
    }

    /// The first number of the fact.
    pub open spec fn primero(self) -> i8 {
        match self {
            Meta::Sobre(x, _) => x,
            Meta::Menor(x, _) => x,
            Meta::Despejado(x) => x,
        }
    }

    /// The fact with its two numbers swapped (a `Despejado` stays as it is).
    pub open spec fn invertida(self) -> Meta {
        match self {
            Meta::Sobre(x, y) => Meta::Sobre(y, x),
            Meta::Menor(x, y) => Meta::Menor(y, x),
            Meta::Despejado(x) => Meta::Despejado(x),
        }
    }

    pub fn get_first(&self) -> (r: i8)
        ensures
            r == self.primero(),
    {
        match *self {
            Meta::Sobre(x, _) => x,
            Meta::Menor(x, _) => x,
            Meta::Despejado(x) => x,
        }
    }

    pub fn reversed(&self) -> (r: Meta)
        ensures
            r == self.invertida(),
    {
        match *self {
            Meta::Sobre(x, y) => Meta::Sobre(y, x),
            Meta::Menor(x, y) => Meta::Menor(y, x),
            Meta::Despejado(_) => *self,
        }
    }
}

/// A move is executable exactly when its disk lies on where it comes from,
/// that disk and the place it goes to are clear, and the disk is smaller than
/// that place.
pub proof fn ejecutable_literal(a: Apilar, r: Set<Clave>)
    ensures
        a.ejecutable_en(r) <==> (r.contains(Meta::Menor(a.x, a.z).clave()) && r.contains(
            Meta::Sobre(a.x, a.y).clave(),
        ) && r.contains(Meta::Despejado(a.x).clave()) && r.contains(Meta::Despejado(a.z).clave())),
{
    if r.contains(Meta::Menor(a.x, a.z).clave()) && r.contains(Meta::Sobre(a.x, a.y).clave())
        && r.contains(Meta::Despejado(a.x).clave()) && r.contains(Meta::Despejado(a.z).clave()) {
        assert forall|i: int| 0 <= i < 4 implies r.contains(#[trigger] a.precondiciones()[i].clave()) by {
            if i == 0 {
            } else if i == 1 {
            } else if i == 2 {
            } else {
            }
        }
    }
    if a.ejecutable_en(r) {
        assert(r.contains(a.precondiciones()[0].clave()));
        assert(r.contains(a.precondiciones()[1].clave()));
        assert(r.contains(a.precondiciones()[2].clave()));
        assert(r.contains(a.precondiciones()[3].clave()));
    }
}

/// Every move worth trying never moves the disk moved last; for a goal
/// `Sobre(x, y)` it takes `x` from where it lies onto `y` (a larger disk or a
/// peg); for a goal `Despejado(x)` it takes a disk off `x` onto a clear peg or
/// a clear larger disk of the other parity; a goal `Menor` gets no move. And
/// none is left out: every such move of a disk other than the one moved last
/// is among them (for `Despejado(x)`, when one disk lies on `x`).
pub proof fn posibilidades_literal(meta: Meta, e: EstadoVista, p: Seq<Apilar>)
    requires
        posibilidades_validas(meta, e, p),
    ensures
        forall|i: int| 0 <= i < p.len() && e.solucion.len() > 0 ==> #[trigger] p[i].x != e.solucion.last().x,
        match meta {
            Meta::Sobre(x, y) => forall|i: int|
                #![trigger p[i]]
                0 <= i < p.len() ==> {
                    &&& p[i].x == x
                    &&& p[i].z == y
                    &&& p[i].y != x
                    &&& (x <= y || y < 0)
                    &&& e.recursos.contains(Meta::Sobre(x, p[i].y).clave())
                },
            Meta::Despejado(x) => forall|i: int|
                #![trigger p[i]]
                0 <= i < p.len() ==> {
                    &&& p[i].y == x
                    &&& e.recursos.contains(Meta::Despejado(p[i].z).clave())
                    &&& (p[i].z < 0 || (p[i].z > p[i].x && resto2(p[i].z as int) != resto2(
                        p[i].x as int,
                    )))
                },
            Meta::Menor(_, _) => p.len() == 0,
        },
        match meta {
            Meta::Sobre(x, y) => forall|a: Apilar|
                a.x == x && a.z == y && e.recursos.contains(Meta::Sobre(x, a.y).clave()) && a.y != x
                    && (x <= y || y < 0) && (e.solucion.len() == 0 || x != e.solucion.last().x)
                    && x != 0 ==> #[trigger] p.contains(a),
            Meta::Despejado(x) => forall|a: Apilar|
                a.y == x && e.recursos.contains(Meta::Sobre(a.x, x).clave()) && (forall|d: i8|
                    e.recursos.contains(#[trigger] Meta::Sobre(d, x).clave()) ==> d == a.x)
                    && (e.solucion.len() == 0 || a.x != e.solucion.last().x) && a.x != 0
                    && e.recursos.contains(Meta::Despejado(a.z).clave()) && (a.z < 0 || (a.z > a.x
                    && resto2(a.z as int) != resto2(a.x as int))) ==> #[trigger] p.contains(a),
            Meta::Menor(_, _) => true,
        },
{
    assert forall|i: int| 0 <= i < p.len() implies p.to_set().contains(#[trigger] p[i]) by {}
    match meta {
        Meta::Sobre(x, y) => {
            assert forall|a: Apilar|
                a.x == x && a.z == y && e.recursos.contains(Meta::Sobre(x, a.y).clave()) && a.y != x
                    && (x <= y || y < 0) && (e.solucion.len() == 0 || x != e.solucion.last().x)
                    && x != 0 implies #[trigger] p.contains(a) by {
                assert(candidatos_sobre(x, y, ultimo_movido(e.solucion), e.recursos).contains(a));
                assert(p.to_set().contains(a));
            }
        },
        Meta::Despejado(x) => {
            let c = choose|c: i8|
                #[trigger] disco_encima(e.recursos, x, c) && p.to_set() == destinos(
                    c,
                    x,
                    ultimo_movido(e.solucion),
                    e.recursos,
                );
            assert forall|i: int| 0 <= i < p.len() implies destinos(c, x, ultimo_movido(e.solucion), e.recursos).contains(#[trigger] p[i]) by {
                assert(p.to_set().contains(p[i]));
            }
            assert forall|a: Apilar|
                a.y == x && e.recursos.contains(Meta::Sobre(a.x, x).clave()) && (forall|d: i8|
                    e.recursos.contains(#[trigger] Meta::Sobre(d, x).clave()) ==> d == a.x)
                    && (e.solucion.len() == 0 || a.x != e.solucion.last().x) && a.x != 0
                    && e.recursos.contains(Meta::Despejado(a.z).clave()) && (a.z < 0 || (a.z > a.x
                    && resto2(a.z as int) != resto2(a.x as int))) implies #[trigger] p.contains(a) by {
                assert(e.recursos.contains(Meta::Sobre(c, x).clave()));
                assert(c == a.x);
                assert(destinos(c, x, ultimo_movido(e.solucion), e.recursos).contains(a));
                assert(p.to_set().contains(a));
            }
        },
        _ => {},
    }
}

/// Different facts have different keys, so a set of keys stands for a set of facts.
pub proof fn clave_inyectiva(m1: Meta, m2: Meta)
    ensures
        m1.clave() == m2.clave() ==> m1 == m2,
{
}

/// Swapping the numbers of a fact twice gives the fact back.
pub proof fn invertida_involutiva(m: Meta)
    ensures
        m.invertida().invertida() == m,
{
}

/// The only action: move disk `x` from `y` onto `z`.
#[derive(Clone, Copy, Hash, PartialEq, Eq, Structural, PartialOrd, Ord, Debug)]
pub struct Apilar {
    pub x: i8,
    pub y: i8,
    pub z: i8,
}

impl Apilar {
    /// The facts that must hold for the move.
    pub open spec fn precondiciones(self) -> Seq<Meta> {
        seq![
            Meta::Menor(self.x, self.z),
            Meta::Sobre(self.x, self.y),
            Meta::Despejado(self.x),
            Meta::Despejado(self.z),
        ]
    }

    /// The facts that the move makes false.
    pub open spec fn supresion(self) -> Seq<Meta> {
        seq![Meta::Despejado(self.z), Meta::Sobre(self.x, self.y)]
    }

    /// The facts that the move makes true.
    pub open spec fn adicion(self) -> Seq<Meta> {
        seq![Meta::Despejado(self.y), Meta::Sobre(self.x, self.z)]
    }

    /// Whether every precondition of the move is among the facts `r`.
    pub open spec fn ejecutable_en(self, r: Set<Clave>) -> bool {
        forall|i: int| 0 <= i < 4 ==> r.contains(#[trigger] self.precondiciones()[i].clave())
    }

    /// The facts after the move: the removed facts leave, then the added ones come in.
    pub open spec fn efecto(self, r: Set<Clave>) -> Set<Clave> {
        r.remove(self.supresion()[0].clave()).remove(self.supresion()[1].clave()).insert(
            self.adicion()[0].clave(),
        ).insert(self.adicion()[1].clave())
    }

    /// The text of the move: `Apilar x|yy|zz`, with `y` and `z` right-aligned in
    /// two columns.
    pub open spec fn texto(self) -> Seq<char> {
        seq!['A', 'p', 'i', 'l', 'a', 'r', ' '] + decimal(self.x as int) + seq!['|'] + ancho_dos(
            decimal(self.y as int),
        ) + seq!['|'] + ancho_dos(decimal(self.z as int))
    }

    pub fn to_string(&self) -> (r: String)
        ensures
            r@ == self.texto(),
    {
        proof {
            reveal_strlit("Apilar ");
            reveal_strlit("|");
        }
        let mut s = String::new();
        s.append("Apilar ");
        anexa_numero(&mut s, self.x, false);
        s.append("|");
        anexa_numero(&mut s, self.y, true);
        s.append("|");
        anexa_numero(&mut s, self.z, true);
        assert(s@ =~= self.texto());
        s
    }

    pub fn new(x: i8, y: i8, z: i8) -> (r: Self)
        ensures
            r == (Apilar { x, y, z }),
    {
        Apilar { x, y, z }
    }

    fn lista_supresion(&self) -> (r: [Meta; 2])
        ensures
            r@ == self.supresion(),
    {
        let r = [Meta::Despejado(self.z), Meta::Sobre(self.x, self.y)];
        assert(r@ =~= self.supresion());
        r
    }

    fn lista_adicion(&self) -> (r: [Meta; 2])
        ensures
            r@ == self.adicion(),
    {
        let r = [Meta::Despejado(self.y), Meta::Sobre(self.x, self.z)];
        assert(r@ =~= self.adicion());
        r
    }

    /// Whether every precondition of the move holds in the state.
    pub fn es_ejecutable(&self, estado_actual: &StripsState) -> (r: bool)
        ensures
            r == self.ejecutable_en(estado_actual@.recursos),
            r == (estado_actual@.recursos.contains(Meta::Menor(self.x, self.z).clave())
                && estado_actual@.recursos.contains(Meta::Sobre(self.x, self.y).clave())
                && estado_actual@.recursos.contains(Meta::Despejado(self.x).clave())
                && estado_actual@.recursos.contains(Meta::Despejado(self.z).clave())),
    {
        proof {
            ejecutable_literal(*self, estado_actual@.recursos);
        }
        let precondiciones: [Meta; 4] = [
            Meta::Menor(self.x, self.z),
            Meta::Sobre(self.x, self.y),
            Meta::Despejado(self.x),
            Meta::Despejado(self.z),
        ];
        let mut i: usize = 0;
        while i < 4
            invariant
                i <= 4,
                precondiciones@ == self.precondiciones(),
                forall|k: int|
                    0 <= k < i ==> estado_actual@.recursos.contains(
                        #[trigger] self.precondiciones()[k].clave(),
                    ),
            decreases 4 - i,
        {
            if !estado_actual.recursos.contiene(precondiciones[i].obtener_clave()) {
                return false;
            }
            i = i + 1;
        }
        true
    }

    /// The state after the move: the top goal is popped, the facts change as
    /// the move says, and the move is added to the solution.
    pub fn aplica_accion(&self, estado_actual: &StripsState) -> (r: StripsState)
        ensures
            r@.pila == sin_tope(estado_actual@.pila),
            r@.recursos == self.efecto(estado_actual@.recursos),
            r@.solucion == estado_actual@.solucion.push(*self),
    {
        let mut estado_copia = estado_actual.copy();
        estado_copia.stack_objetivos.pop_back();
        let supresion = self.lista_supresion();
        estado_copia.recursos.quita(supresion[0].obtener_clave());
        estado_copia.recursos.quita(supresion[1].obtener_clave());
        let adicion = self.lista_adicion();
        estado_copia.recursos.inserta(adicion[0].obtener_clave());
        estado_copia.recursos.inserta(adicion[1].obtener_clave());
        estado_copia.solucion.push(*self);
        estado_copia
    }

    /// The moves worth trying for the goal `meta`. For `Sobre(x, y)`: moving
    /// `x` from what it lies on onto `y`. For `Despejado(x)`: moving the disk
    /// that lies on `x` onto a clear peg or a clear larger disk of the other
    /// parity. Never the disk moved last; nothing for `Menor`. The order of the
    /// moves follows the walk over the hash set of facts.
    pub fn genera_posibilidades(&self, meta: Meta, estado_actual: &StripsState) -> (r: Vec<Apilar>)
        ensures
            posibilidades_validas(meta, estado_actual@, r@),
            forall|i: int|
                0 <= i < r@.len() && estado_actual@.solucion.len() > 0 ==> #[trigger] r@[i].x
                    != estado_actual@.solucion.last().x,
            match meta {
                Meta::Sobre(x, y) => forall|i: int|
                    #![trigger r@[i]]
                    0 <= i < r@.len() ==> {
                        &&& r@[i].x == x
                        &&& r@[i].z == y
                        &&& r@[i].y != x
                        &&& (x <= y || y < 0)
                        &&& estado_actual@.recursos.contains(Meta::Sobre(x, r@[i].y).clave())
                    },
                Meta::Despejado(x) => forall|i: int|
                    #![trigger r@[i]]
                    0 <= i < r@.len() ==> {
                        &&& r@[i].y == x
                        &&& estado_actual@.recursos.contains(Meta::Despejado(r@[i].z).clave())
                        &&& (r@[i].z < 0 || (r@[i].z > r@[i].x && resto2(r@[i].z as int) != resto2(
                            r@[i].x as int,
                        )))
                    },
                Meta::Menor(_, _) => r@.len() == 0,
            },
            match meta {
                Meta::Sobre(x, y) => forall|a: Apilar|
                    a.x == x && a.z == y && estado_actual@.recursos.contains(
                        Meta::Sobre(x, a.y).clave(),
                    ) && a.y != x && (x <= y || y < 0) && (estado_actual@.solucion.len() == 0 || x
                        != estado_actual@.solucion.last().x) && x != 0 ==> #[trigger] r@.contains(a),
                Meta::Despejado(x) => forall|a: Apilar|
                    a.y == x && estado_actual@.recursos.contains(Meta::Sobre(a.x, x).clave()) && (
                    forall|d: i8|
                        estado_actual@.recursos.contains(#[trigger] Meta::Sobre(d, x).clave()) ==> d
                            == a.x) && (estado_actual@.solucion.len() == 0 || a.x
                        != estado_actual@.solucion.last().x) && a.x != 0
                        && estado_actual@.recursos.contains(Meta::Despejado(a.z).clave()) && (a.z < 0
                        || (a.z > a.x && resto2(a.z as int) != resto2(a.x as int)))
                        ==> #[trigger] r@.contains(a),
                Meta::Menor(_, _) => true,
            },
    {
        let mut posibilidades: Vec<Apilar> = Vec::new();
        let last_mov: i8 = if estado_actual.solucion.len() > 0 {
            estado_actual.solucion[estado_actual.solucion.len() - 1].x
        } else {
            0
        };
        assert(last_mov == ultimo_movido(estado_actual@.solucion));
        let elementos = estado_actual.recursos.elementos();
        let ghost rec = estado_actual@.recursos;
        let n = elementos.len();
        match meta {
            Meta::Sobre(x, y) => {
                let mut i: usize = 0;
                while i < n
                    invariant
                        n == elementos@.len(),
                        i <= n,
                        elementos@.no_duplicates(),
                        elementos@.to_set() == rec,
                        posibilidades@.no_duplicates(),
                        forall|a: Apilar|
                            posibilidades@.contains(a) <==> (candidatos_sobre(
                                x,
                                y,
                                last_mov,
                                rec,
                            ).contains(a) && elementos@.take(i as int).contains(
                                Meta::Sobre(x, a.y).clave(),
                            )),
                    decreases n - i,
                {
                    let e = elementos[i];
                    proof {
                        assert(elementos@.take(i + 1) =~= elementos@.take(i as int).push(e));
                        assert(rec.contains(e));
                        assert(!elementos@.take(i as int).contains(e)) by {
                            if elementos@.take(i as int).contains(e) {
                                let k = choose|k: int|
                                    0 <= k < i && elementos@.take(i as int)[k] == e;
                                assert(elementos@[k] == elementos@[i as int]);
                            }
                        }
                    }
                    if e.0 == 0 && e.1 == x && x != e.2 && (x <= y || y < 0) && x != last_mov {
                        let a = Apilar::new(x, e.2, y);
                        proof {
                            assert(Meta::Sobre(x, a.y).clave() == e);
                            assert(candidatos_sobre(x, y, last_mov, rec).contains(a));
                            assert(!posibilidades@.contains(a));
                        }
                        let ghost antes = posibilidades@;
                        posibilidades.push(a);
                        proof {
                            assert forall|b: Apilar|
                                posibilidades@.contains(b) <==> (candidatos_sobre(
                                    x,
                                    y,
                                    last_mov,
                                    rec,
                                ).contains(b) && elementos@.take(i + 1).contains(
                                    Meta::Sobre(x, b.y).clave(),
                                )) by {
                                vstd::seq_lib::lemma_seq_contains_after_push(antes, a, b);
                                vstd::seq_lib::lemma_seq_contains_after_push(
                                    elementos@.take(i as int),
                                    e,
                                    Meta::Sobre(x, b.y).clave(),
                                );
                            }
                        }
                    }
                    i = i + 1;
                }
                proof {
                    assert(elementos@.take(n as int) =~= elementos@);
                    assert(posibilidades@.to_set() =~= candidatos_sobre(x, y, last_mov, rec));
                }
            },
            Meta::Despejado(x) => {
                let mut coso_que_mover: i8 = 0;
                let mut i: usize = 0;
                while i < n
                    invariant_except_break
                        i <= n,
                        coso_que_mover == 0,
                        forall|k: int| 0 <= k < i ==> !(elementos@[k].0 == 0 && elementos@[k].2 == x),
                    invariant
                        n == elementos@.len(),
                    ensures
                        (i == n && coso_que_mover == 0 && forall|k: int|
                            0 <= k < n ==> !(elementos@[k].0 == 0 && elementos@[k].2 == x)) || (i < n
                            && elementos@[i as int] == (0u8, coso_que_mover, x)),
                    decreases n - i,
                {
                    let e = elementos[i];
                    if e.0 == 0 && e.2 == x {
                        coso_que_mover = e.1;
                        break;
                    }
                    i = i + 1;
                }
                proof {
                    if i < n {
                        assert(rec.contains(elementos@[i as int]));
                        assert(rec.contains(Meta::Sobre(coso_que_mover, x).clave()));
                    } else {
                        assert forall|d: i8| !rec.contains(#[trigger] Meta::Sobre(d, x).clave()) by {
                            if rec.contains(Meta::Sobre(d, x).clave()) {
                                assert(elementos@.contains(Meta::Sobre(d, x).clave()));
                                let k = choose|k: int|
                                    0 <= k < n && elementos@[k] == Meta::Sobre(d, x).clave();
                            }
                        }
                    }
                    assert(disco_encima(rec, x, coso_que_mover));
                }
                if coso_que_mover != last_mov {
                    let c = coso_que_mover;
                    let mut j: usize = 0;
                    while j < n
                        invariant
                            n == elementos@.len(),
                            j <= n,
                            c != last_mov,
                            elementos@.no_duplicates(),
                            elementos@.to_set() == rec,
                            posibilidades@.no_duplicates(),
                            forall|a: Apilar|
                                posibilidades@.contains(a) <==> (destinos(
                                    c,
                                    x,
                                    last_mov,
                                    rec,
                                ).contains(a) && elementos@.take(j as int).contains(
                                    Meta::Despejado(a.z).clave(),
                                )),
                        decreases n - j,
                    {
                        let e = elementos[j];
                        proof {
                            assert(elementos@.take(j + 1) =~= elementos@.take(j as int).push(e));
                            assert(rec.contains(e));
                            assert(!elementos@.take(j as int).contains(e)) by {
                                if elementos@.take(j as int).contains(e) {
                                    let k = choose|k: int|
                                        0 <= k < j && elementos@.take(j as int)[k] == e;
                                    assert(elementos@[k] == elementos@[j as int]);
                                }
                            }
                        }
                        if e.0 == 2 && e.2 == 0 {
                            let donde = e.1;
                            if donde < 0 || (donde > c && resto2_exec(donde) != resto2_exec(c)) {
                                let a = Apilar::new(c, x, donde);
                                proof {
                                    assert(Meta::Despejado(a.z).clave() == e);
                                    assert(destinos(c, x, last_mov, rec).contains(a));
                                    assert(!posibilidades@.contains(a));
                                }
                                let ghost antes = posibilidades@;
                        posibilidades.push(a);
                                proof {
                                    assert forall|b: Apilar|
                                        posibilidades@.contains(b) <==> (destinos(
                                            c,
                                            x,
                                            last_mov,
                                            rec,
                                        ).contains(b) && elementos@.take(j + 1).contains(
                                            Meta::Despejado(b.z).clave(),
                                        )) by {
                                        vstd::seq_lib::lemma_seq_contains_after_push(antes, a, b);
                                        vstd::seq_lib::lemma_seq_contains_after_push(
                                            elementos@.take(j as int),
                                            e,
                                            Meta::Despejado(b.z).clave(),
                                        );
                                    }
                                }
                            }
                        }
                        j = j + 1;
                    }
                    proof {
                        assert(elementos@.take(n as int) =~= elementos@);
                        assert(posibilidades@.to_set() =~= destinos(c, x, last_mov, rec));
                    }
                } else {
                    proof {
                        assert(posibilidades@.to_set() =~= destinos(coso_que_mover, x, last_mov, rec));
                    }
                }
                proof {
                    assert(disco_encima(rec, x, coso_que_mover) && posibilidades@.to_set() == destinos(
                        coso_que_mover,
                        x,
                        last_mov,
                        rec,
                    ));
                }
            },
            Meta::Menor(_, _) => {},
        }
        proof {
            posibilidades_literal(meta, estado_actual@, posibilidades@);
        }
        posibilidades
    }

    /// The state with the preconditions of the move pushed as goals: the fact
    /// `Menor(x, z)`, then `Sobre(x, y)`, then the conjunction "`x` and `z` are clear".
    pub fn add_prerequisitos(&self, estado_actual: &StripsState) -> (r: StripsState)
        ensures
            r@.pila == estado_actual@.pila + seq![
                Stackeable::Objetivo(Meta::Menor(self.x, self.z)),
                Stackeable::Objetivo(Meta::Sobre(self.x, self.y)),
                Stackeable::Conjuncion([self.x, self.z]),
            ],
            r@.recursos == estado_actual@.recursos,
            r@.solucion == estado_actual@.solucion,
    {
        let mut copia = estado_actual.copy();
        let precondiciones: [Meta; 4] = [
            Meta::Menor(self.x, self.z),
            Meta::Sobre(self.x, self.y),
            Meta::Despejado(self.x),
            Meta::Despejado(self.z),
        ];
        copia.stack_objetivos.push_back(Stackeable::Objetivo(precondiciones[0]));
        copia.stack_objetivos.push_back(Stackeable::Objetivo(precondiciones[1]));
        let conj = [precondiciones[2].get_first(), precondiciones[3].get_first()];
        assert(conj =~= [self.x, self.z]);
        copia.stack_objetivos.push_back(Stackeable::Conjuncion(conj));
        assert(copia@.pila =~= estado_actual@.pila + seq![
            Stackeable::Objetivo(Meta::Menor(self.x, self.z)),
            Stackeable::Objetivo(Meta::Sobre(self.x, self.y)),
            Stackeable::Conjuncion([self.x, self.z]),
        ]);
        copia
    }
}

/// `t` names a disk of a puzzle with `n` disks, or one of the three pegs.
pub open spec fn objeto(n: int, t: int) -> bool {
    (1 <= t <= n) || (-3 <= t <= -1)
}

/// The facts `Menor(i, j)` of a puzzle with `n` disks: `i` is a disk, and `j`
/// is a larger disk or a peg.
pub open spec fn menor_legal(n: int, i: int, j: int) -> bool {
    1 <= i <= n && ((i < j <= n) || (-3 <= j <= -1))
}

/// Some disk lies on `t`.
pub open spec fn ocupado(r: Set<Clave>, t: i8) -> bool {
    exists|d: i8| r.contains((0u8, d, t))
}

/// Disk `d` lies on something.
pub open spec fn apoyado(r: Set<Clave>, d: i8) -> bool {
    exists|t: i8| r.contains((0u8, d, t))
}

/// The facts `r` describe a legal position of a puzzle with `n` disks: they
/// speak only of its disks and pegs; each disk lies on exactly one thing and
/// nothing holds two disks; a thing is clear exactly when no disk lies on it;
/// the `Menor` facts are exactly the true ones; no disk lies on a smaller one.
pub open spec fn posicion_legal(n: int, r: Set<Clave>) -> bool {
    &&& r.finite()
    &&& forall|k: Clave|
        #![trigger r.contains(k)]
        r.contains(k) ==> (k.0 == 0 && 1 <= k.1 <= n && objeto(n, k.2 as int) && k.1 != k.2) || (
        k.0 == 1 && menor_legal(n, k.1 as int, k.2 as int)) || (k.0 == 2 && objeto(n, k.1 as int)
            && k.2 == 0)
    &&& forall|d: i8| 1 <= d <= n ==> #[trigger] apoyado(r, d)
    &&& forall|d: i8, t1: i8, t2: i8|
        r.contains((0u8, d, t1)) && r.contains((0u8, d, t2)) ==> t1 == t2
    &&& forall|t: i8, d1: i8, d2: i8|
        r.contains((0u8, d1, t)) && r.contains((0u8, d2, t)) ==> d1 == d2
    &&& forall|t: i8|
        objeto(n, t as int) ==> (#[trigger] r.contains((2u8, t, 0i8)) <==> !ocupado(r, t))
    &&& forall|i: i8, j: i8| menor_legal(n, i as int, j as int) ==> #[trigger] r.contains((1u8, i, j))
    &&& forall|d: i8, t: i8| #[trigger] r.contains((0u8, d, t)) && t > 0 ==> d < t
}

/// An executable move keeps a legal position legal, with as many facts as before.
pub proof fn movimiento_legal(n: int, a: Apilar, r: Set<Clave>)
    requires
        posicion_legal(n, r),
        a.ejecutable_en(r),
    ensures
        posicion_legal(n, a.efecto(r)),
        a.efecto(r).len() == r.len(),
{
    let (x, y, z) = (a.x, a.y, a.z);
    assert(r.contains(a.precondiciones()[0].clave()));
    assert(r.contains(a.precondiciones()[1].clave()));
    assert(r.contains(a.precondiciones()[2].clave()));
    assert(r.contains(a.precondiciones()[3].clave()));
    let dz = (2u8, z, 0i8);
    let sxy = (0u8, x, y);
    let dy = (2u8, y, 0i8);
    let sxz = (0u8, x, z);
    assert(r.contains((1u8, x, z)));
    assert(menor_legal(n, x as int, z as int));
    assert(r.contains(sxy));
    assert(objeto(n, y as int));
    assert(r.contains(dz));
    assert(objeto(n, z as int));
    assert(!ocupado(r, z));
    assert(y != z) by {
        if y == z {
            assert(r.contains((0u8, x, z)));
        }
    }
    assert(ocupado(r, y));
    assert(r.contains((2u8, y, 0i8)) <==> !ocupado(r, y));
    assert(!r.contains(dy));
    assert(!r.contains(sxz)) by {
        if r.contains(sxz) {
            assert(r.contains((0u8, x, z)));
        }
    }
    let r1 = r.remove(dz);
    let r2 = r1.remove(sxy);
    let r3 = r2.insert(dy);
    let r4 = r3.insert(sxz);
    assert(a.efecto(r) == r4);
    assert(r1.len() == r.len() - 1);
    assert(r2.len() == r1.len() - 1);
    assert(r3.len() == r2.len() + 1);
    assert(r4.len() == r3.len() + 1);
    assert forall|d: i8| 1 <= d <= n implies #[trigger] apoyado(r4, d) by {
        if d == x {
            assert(r4.contains((0u8, d, z)));
        } else {
            assert(apoyado(r, d));
            let t = choose|t: i8| r.contains((0u8, d, t));
            assert(r4.contains((0u8, d, t)));
        }
    }
    assert forall|t: i8|
        objeto(n, t as int) implies (#[trigger] r4.contains((2u8, t, 0i8)) <==> !ocupado(r4, t)) by {
        if t == z {
            assert(r4.contains((0u8, x, z)));
        } else if t == y {
            assert forall|d: i8| !r4.contains((0u8, d, t)) by {
                if r4.contains((0u8, d, t)) {
                    assert(r.contains((0u8, d, t)));
                }
            }
        } else {
            if ocupado(r, t) {
                let d = choose|d: i8| r.contains((0u8, d, t));
                assert(r4.contains((0u8, d, t)));
            }
            if ocupado(r4, t) {
                let d = choose|d: i8| r4.contains((0u8, d, t));
                assert(r.contains((0u8, d, t)));
            }
        }
    }
    assert forall|i: i8, j: i8| menor_legal(n, i as int, j as int) implies #[trigger] r4.contains(
        (1u8, i, j),
    ) by {
        assert(r.contains((1u8, i, j)));
    }
}

/// The move back deletes what the move adds, and adds what it deletes.
pub proof fn movimiento_inverso(a: Apilar)
    ensures
        (Apilar { x: a.x, y: a.z, z: a.y }).supresion() == a.adicion(),
        (Apilar { x: a.x, y: a.z, z: a.y }).adicion() == a.supresion(),
{
    assert((Apilar { x: a.x, y: a.z, z: a.y }).supresion() =~= a.adicion());
    assert((Apilar { x: a.x, y: a.z, z: a.y }).adicion() =~= a.supresion());
}

/// The disk moved last in `solucion`, or 0 when nothing has moved yet.
pub open spec fn ultimo_movido(solucion: Seq<Apilar>) -> i8 {
    if solucion.len() > 0 {
        solucion.last().x
    } else {
        0
    }
}

/// The remainder of `v` divided by 2 as Rust's `%` gives it (it takes the sign of `v`).
pub open spec fn resto2(v: int) -> int {
    if v >= 0 {
        v % 2
    } else {
        -((-v) % 2)
    }
}

/// The moves that would put disk `x` on `y`: `x` leaves whatever it lies on,
/// unless it lies on itself, the target is a larger number or a peg, and `x`
/// is not the disk moved last.
pub open spec fn candidatos_sobre(x: i8, y: i8, ultimo: i8, r: Set<Clave>) -> Set<Apilar> {
    Set::new(
        |a: Apilar|
            a.x == x && a.z == y && r.contains(Meta::Sobre(x, a.y).clave()) && x != a.y && (x <= y
                || y < 0) && x != ultimo,
    )
}

/// `c` is a disk that lies on `x`, or 0 when nothing lies on `x`.
pub open spec fn disco_encima(r: Set<Clave>, x: i8, c: i8) -> bool {
    if exists|d: i8| r.contains(#[trigger] Meta::Sobre(d, x).clave()) {
        r.contains(Meta::Sobre(c, x).clave())
    } else {
        c == 0
    }
}

/// The moves that would take disk `c` off `x`: onto any clear peg, or onto a
/// clear larger disk of the other parity; none when `c` is the disk moved last.
pub open spec fn destinos(c: i8, x: i8, ultimo: i8, r: Set<Clave>) -> Set<Apilar> {
    if c != ultimo {
        Set::new(
            |a: Apilar|
                a.x == c && a.y == x && r.contains(Meta::Despejado(a.z).clave()) && (a.z < 0 || (
                a.z > c && resto2(a.z as int) != resto2(c as int))),
        )
    } else {
        Set::empty()
    }
}

/// What `genera_posibilidades` may return for the goal `meta` in the state
/// `e`: each possible move once, in any order.
pub open spec fn posibilidades_validas(meta: Meta, e: EstadoVista, p: Seq<Apilar>) -> bool {
    &&& p.no_duplicates()
    &&& match meta {
        Meta::Sobre(x, y) => p.to_set() == candidatos_sobre(x, y, ultimo_movido(e.solucion), e.recursos),
        Meta::Despejado(x) => exists|c: i8|
            disco_encima(e.recursos, x, c) && p.to_set() == destinos(
                c,
                x,
                ultimo_movido(e.solucion),
                e.recursos,
            ),
        Meta::Menor(_, _) => p.len() == 0,
    }
}

fn resto2_exec(v: i8) -> (r: i8)
    ensures
        r == resto2(v as int),
{
    if v >= 0 {
        v % 2
    } else {
        let w: u16 = (0i16 - (v as i16)) as u16;
        0i8 - ((w % 2) as i8)
    }
}

/// The facts after carrying out `plan` from the facts `r`, one move after the
/// other; `None` when some move of the plan is not executable where it stands.
pub open spec fn plan_aplicado(r: Set<Clave>, plan: Seq<Apilar>) -> Option<Set<Clave>>
    decreases plan.len(),
{
    if plan.len() == 0 {
        Some(r)
    } else {
        match plan_aplicado(r, plan.drop_last()) {
            Some(antes) => if plan.last().ejecutable_en(antes) {
                Some(plan.last().efecto(antes))
            } else {
                None
            },
            None => None,
        }
    }
}

} // verus!
