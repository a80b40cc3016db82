use hanoi::accion::{Apilar, Meta};
use hanoi::conjunto::Clave;
use hanoi::hanoi;
use hanoi::stackeable::Stackeable;
use hanoi::strips::{Paso, Strips};
use hanoi::stripsstate::StripsState;

fn clave(m: Meta) -> Clave {
    m.obtener_clave()
}

fn estado(hechos: &[Meta], pila: &[Stackeable]) -> StripsState {
    StripsState::new(hechos.to_vec(), pila.to_vec(), 3)
}

fn ordenadas(mut v: Vec<Apilar>) -> Vec<(i8, i8, i8)> {
    v.sort();
    v.into_iter().map(|a| (a.x, a.y, a.z)).collect()
}

/// Replays a plan on three pegs (bottom first) and returns the pegs.
fn simula(n: i8, plan: &[Apilar]) -> Vec<Vec<i8>> {
    let mut varillas: Vec<Vec<i8>> = vec![(1..=n).rev().collect(), vec![], vec![]];
    for a in plan {
        let origen = varillas.iter().position(|v| v.last() == Some(&a.x)).expect("disk not on top");
        assert_eq!(varillas[origen].pop(), Some(a.x));
        let destino = if a.z < 0 {
            (-a.z - 1) as usize
        } else {
            varillas.iter().position(|v| v.last() == Some(&a.z)).expect("target disk not on top")
        };
        if let Some(&tope) = varillas[destino].last() {
            assert!(tope > a.x, "larger disk on a smaller one");
        }
        varillas[destino].push(a.x);
    }
    varillas
}

#[test]
fn meta_get_first() {
    assert_eq!(Meta::Sobre(3, 4).get_first(), 3);
    assert_eq!(Meta::Menor(-1, 2).get_first(), -1);
    assert_eq!(Meta::Despejado(7).get_first(), 7);
}

#[test]
fn meta_reversed() {
    assert_eq!(Meta::Sobre(3, 4).reversed(), Meta::Sobre(4, 3));
    assert_eq!(Meta::Menor(1, -2).reversed(), Meta::Menor(-2, 1));
    assert_eq!(Meta::Despejado(5).reversed(), Meta::Despejado(5));
}

#[test]
fn meta_reversed_twice_is_identity() {
    for m in [Meta::Sobre(1, 2), Meta::Menor(-3, 9), Meta::Despejado(-1)] {
        assert_eq!(m.reversed().reversed(), m);
    }
}

#[test]
fn meta_keys_differ() {
    assert_eq!(clave(Meta::Sobre(1, 2)), (0, 1, 2));
    assert_eq!(clave(Meta::Menor(1, 2)), (1, 1, 2));
    assert_eq!(clave(Meta::Despejado(1)), (2, 1, 0));
}

#[test]
fn apilar_new_fields() {
    let a = Apilar::new(1, 2, -3);
    assert_eq!((a.x, a.y, a.z), (1, 2, -3));
    assert_eq!(a, Apilar { x: 1, y: 2, z: -3 });
}

#[test]
fn apilar_to_string() {
    assert_eq!(Apilar::new(1, 2, -3).to_string(), "Apilar 1| 2|-3");
    assert_eq!(Apilar::new(12, 10, 0).to_string(), "Apilar 12|10| 0");
    assert_eq!(Apilar::new(-128, 127, -100).to_string(), "Apilar -128|127|-100");
    assert_eq!(Apilar::new(-5, -9, 9).to_string(), "Apilar -5|-9| 9");
}

#[test]
fn apilar_to_string_matches_format() {
    for (x, y, z) in [(0i8, 0i8, 0i8), (3, -1, 45), (-7, 99, -10), (i8::MIN, i8::MAX, 1)] {
        let a = Apilar::new(x, y, z);
        assert_eq!(a.to_string(), format!("Apilar {}|{:2}|{:2}", x, y, z));
    }
}

#[test]
fn stackeable_is_accion() {
    assert!(Stackeable::Accion(Apilar::new(1, 2, 3)).is_accion());
    assert!(!Stackeable::Objetivo(Meta::Despejado(1)).is_accion());
    assert!(!Stackeable::Conjuncion([1, 2]).is_accion());
}

#[test]
fn stackeable_eq() {
    assert!(Stackeable::Conjuncion([1, 2]) == Stackeable::Conjuncion([1, 2]));
    assert!(Stackeable::Conjuncion([1, 2]) != Stackeable::Conjuncion([2, 1]));
    assert!(Stackeable::Objetivo(Meta::Despejado(1)) != Stackeable::Accion(Apilar::new(1, 1, 1)));
}

#[test]
fn state_new_and_queries() {
    let st = estado(
        &[Meta::Despejado(1), Meta::Sobre(1, -1), Meta::Despejado(1)],
        &[Stackeable::Objetivo(Meta::Sobre(1, -3))],
    );
    assert_eq!(st.stack_objetivos.len(), 1);
    assert!(st.solucion.is_empty());
    assert_eq!(st.clave().1.len(), 2);
    assert!(st.cumple_meta(Meta::Despejado(1)));
    assert!(!st.cumple_meta(Meta::Despejado(2)));
    assert!(st.cumple_conjuncion(&[Meta::Despejado(1), Meta::Sobre(1, -1)]));
    assert!(!st.cumple_conjuncion(&[Meta::Despejado(1), Meta::Sobre(1, -2)]));
    assert!(st.cumple_conjuncion(&[]));
}

#[test]
fn state_cumple_meta_bucle_ignores_top() {
    let meta = Meta::Despejado(2);
    let st = estado(&[], &[Stackeable::Objetivo(meta)]);
    assert!(!st.cumple_meta_bucle(meta));
    let st = estado(&[], &[Stackeable::Objetivo(meta), Stackeable::Conjuncion([1, 2]), Stackeable::Objetivo(meta)]);
    assert!(st.cumple_meta_bucle(meta));
    assert!(!st.cumple_meta_bucle(Meta::Despejado(3)));
}

#[test]
fn state_add_metas_and_copy() {
    let mut st = estado(&[Meta::Despejado(1)], &[]);
    st.add_metas([Meta::Despejado(2), Meta::Despejado(3)]);
    assert!(st.stack_objetivos[0] == Stackeable::Objetivo(Meta::Despejado(2)));
    assert!(st.stack_objetivos[1] == Stackeable::Objetivo(Meta::Despejado(3)));
    let copia = st.copy();
    assert!(copia.eq(&st) && st.eq(&copia));
    assert_eq!(copia.clave(), st.clave());
}

#[test]
fn state_eq_is_stack_equality_and_inclusion() {
    let pila = [Stackeable::Objetivo(Meta::Despejado(1))];
    let a = estado(&[Meta::Despejado(1)], &pila);
    let b = estado(&[Meta::Despejado(1), Meta::Despejado(2)], &pila);
    assert!(a.eq(&b));
    assert!(!b.eq(&a));
    let c = estado(&[Meta::Despejado(1)], &[]);
    assert!(!a.eq(&c));
    assert_ne!(a.clave(), b.clave());
}

#[test]
fn state_clave_is_canonical() {
    let a = estado(&[Meta::Sobre(2, 3), Meta::Despejado(1), Meta::Menor(1, 2)], &[]);
    let b = estado(&[Meta::Menor(1, 2), Meta::Sobre(2, 3), Meta::Despejado(1)], &[]);
    let (pila, hechos) = a.clave();
    assert!(pila.is_empty());
    assert_eq!(hechos, vec![(0, 2, 3), (1, 1, 2), (2, 1, 0)]);
    assert_eq!(a.clave(), b.clave());
}

#[test]
fn apilar_es_ejecutable() {
    let a = Apilar::new(1, 2, -3);
    let todo = [Meta::Menor(1, -3), Meta::Sobre(1, 2), Meta::Despejado(1), Meta::Despejado(-3)];
    assert!(a.es_ejecutable(&estado(&todo, &[])));
    for falta in 0..4 {
        let hechos: Vec<Meta> = todo.iter().enumerate().filter(|(i, _)| *i != falta).map(|(_, m)| *m).collect();
        assert!(!a.es_ejecutable(&estado(&hechos, &[])));
    }
}

#[test]
fn apilar_aplica_accion() {
    let a = Apilar::new(1, 2, -3);
    let hechos = [Meta::Menor(1, -3), Meta::Sobre(1, 2), Meta::Despejado(1), Meta::Despejado(-3)];
    let st = estado(&hechos, &[Stackeable::Objetivo(Meta::Despejado(2)), Stackeable::Accion(a)]);
    let r = a.aplica_accion(&st);
    assert_eq!(r.stack_objetivos.len(), 1);
    assert_eq!(r.solucion, vec![a]);
    assert!(r.cumple_meta(Meta::Sobre(1, -3)));
    assert!(r.cumple_meta(Meta::Despejado(2)));
    assert!(!r.cumple_meta(Meta::Sobre(1, 2)));
    assert!(!r.cumple_meta(Meta::Despejado(-3)));
    assert!(r.cumple_meta(Meta::Despejado(1)));
    assert_eq!(r.clave().1.len(), 4);
    // the state passed in is left as it was
    assert!(st.cumple_meta(Meta::Sobre(1, 2)));
    assert!(st.solucion.is_empty());
}

#[test]
fn apilar_aplica_accion_on_empty_stack() {
    let a = Apilar::new(1, 2, 3);
    let r = a.aplica_accion(&estado(&[], &[]));
    assert!(r.stack_objetivos.is_empty());
    assert_eq!(r.solucion, vec![a]);
}

#[test]
fn apilar_add_prerequisitos() {
    let a = Apilar::new(1, 2, -3);
    let st = estado(&[Meta::Despejado(5)], &[Stackeable::Accion(a)]);
    let r = a.add_prerequisitos(&st);
    assert_eq!(r.stack_objetivos.len(), 4);
    assert!(r.stack_objetivos[0] == Stackeable::Accion(a));
    assert!(r.stack_objetivos[1] == Stackeable::Objetivo(Meta::Menor(1, -3)));
    assert!(r.stack_objetivos[2] == Stackeable::Objetivo(Meta::Sobre(1, 2)));
    assert!(r.stack_objetivos[3] == Stackeable::Conjuncion([1, -3]));
    assert!(r.cumple_meta(Meta::Despejado(5)));
    assert!(r.solucion.is_empty());
}

#[test]
fn genera_posibilidades_sobre() {
    let hechos = [Meta::Sobre(1, 2), Meta::Sobre(1, 3), Meta::Sobre(1, 1), Meta::Sobre(2, 3), Meta::Despejado(1)];
    let st = estado(&hechos, &[]);
    let a = Apilar::new(0, 0, 0);
    assert_eq!(ordenadas(a.genera_posibilidades(Meta::Sobre(1, 4), &st)), vec![(1, 2, 4), (1, 3, 4)]);
    assert_eq!(ordenadas(a.genera_posibilidades(Meta::Sobre(1, -3), &st)), vec![(1, 2, -3), (1, 3, -3)]);
    // a smaller positive target is refused
    assert!(a.genera_posibilidades(Meta::Sobre(2, 1), &st).is_empty());
    // the disk moved last is not moved again
    let mut st2 = estado(&hechos, &[]);
    st2.solucion.push(Apilar::new(1, 5, 2));
    assert!(a.genera_posibilidades(Meta::Sobre(1, 4), &st2).is_empty());
}

#[test]
fn genera_posibilidades_despejado() {
    let hechos = [
        Meta::Sobre(1, 2),
        Meta::Despejado(1),
        Meta::Despejado(-2),
        Meta::Despejado(4),
        Meta::Despejado(3),
        Meta::Despejado(-3),
    ];
    let st = estado(&hechos, &[]);
    let a = Apilar::new(0, 0, 0);
    // disk 1 lies on 2: it may go to the clear pegs or to the clear disk 4 (other parity)
    assert_eq!(
        ordenadas(a.genera_posibilidades(Meta::Despejado(2), &st)),
        vec![(1, 2, -3), (1, 2, -2), (1, 2, 4)]
    );
    // nothing lies on 5: the disk to move is 0, the same as "no disk moved yet"
    assert!(a.genera_posibilidades(Meta::Despejado(5), &st).is_empty());
    // once disk 3 has moved, disk 0 may go onto clear pegs or clear larger
    // disks of odd parity
    let mut st3 = estado(&hechos, &[]);
    st3.solucion.push(Apilar::new(3, 5, 2));
    assert_eq!(
        ordenadas(a.genera_posibilidades(Meta::Despejado(5), &st3)),
        vec![(0, 5, -3), (0, 5, -2), (0, 5, 1), (0, 5, 3)]
    );
    let mut st2 = estado(&hechos, &[]);
    st2.solucion.push(Apilar::new(1, 5, 2));
    assert!(a.genera_posibilidades(Meta::Despejado(2), &st2).is_empty());
}

#[test]
fn genera_posibilidades_menor_is_empty() {
    let st = estado(&[Meta::Sobre(1, 2), Meta::Despejado(1)], &[]);
    assert!(Apilar::new(0, 0, 0).genera_posibilidades(Meta::Menor(1, 2), &st).is_empty());
}

#[test]
fn strips_returns_state_without_goals() {
    let st = estado(&[Meta::Despejado(1)], &[]);
    let mut s = Strips::new(st, Apilar::new(0, 0, 0), vec![], 1);
    match s.paso() {
        Paso::Solucion(e) => assert!(e.stack_objetivos.is_empty()),
        _ => panic!("expected the start state back"),
    }
    assert!(matches!(s.paso(), Paso::Agotado));
}

#[test]
fn strips_pops_goal_that_holds() {
    let st = estado(&[Meta::Despejado(1)], &[Stackeable::Objetivo(Meta::Despejado(1))]);
    let s = Strips::new(st, Apilar::new(0, 0, 0), vec![], 1);
    let r = s.resolver(10).expect("goal already holds");
    assert!(r.stack_objetivos.is_empty());
    assert!(r.solucion.is_empty());
}

#[test]
fn strips_conjunction_that_holds() {
    let st = estado(&[Meta::Despejado(1), Meta::Despejado(2)], &[Stackeable::Conjuncion([1, 2])]);
    let r = Strips::new(st, Apilar::new(0, 0, 0), vec![], 1).resolver(10).unwrap();
    assert!(r.stack_objetivos.is_empty());
}

#[test]
fn strips_exhausts_without_solution() {
    // nothing can make disk 1 lie on peg -3: no fact says where it lies
    let st = estado(&[Meta::Despejado(1)], &[Stackeable::Objetivo(Meta::Sobre(1, -3))]);
    let mut s = Strips::new(st, Apilar::new(0, 0, 0), vec![], 1);
    assert!(matches!(s.paso(), Paso::Continua));
    assert!(matches!(s.paso(), Paso::Agotado));
}

#[test]
fn strips_skips_visited_state() {
    let hechos = [Meta::Despejado(1), Meta::Despejado(2)];
    let inicial = estado(&hechos, &[Stackeable::Objetivo(Meta::Despejado(1))]);
    let mut s = Strips::new(inicial, Apilar::new(0, 0, 0), vec![], 1);
    // expanding this state pushes a copy of the start state (its top goal holds)
    let otro = estado(&hechos, &[Stackeable::Objetivo(Meta::Despejado(1)), Stackeable::Objetivo(Meta::Despejado(2))]);
    s.prueba_estado(&otro);
    // the copy is expanded: its goal holds and is popped
    assert!(matches!(s.paso(), Paso::Continua));
    match s.paso() {
        Paso::Solucion(e) => assert!(e.stack_objetivos.is_empty()),
        _ => panic!("expected a solution"),
    }
    // the start state has the key of the copy: it is skipped, not expanded again
    assert!(matches!(s.paso(), Paso::Continua));
    assert!(matches!(s.paso(), Paso::Agotado));
}

#[test]
fn strips_budget_runs_out() {
    let st = estado(&[Meta::Despejado(1)], &[Stackeable::Objetivo(Meta::Despejado(1))]);
    let s = Strips::new(st, Apilar::new(0, 0, 0), vec![], 1);
    assert!(s.resolver(0).is_none());
}

#[test]
fn strips_one_move() {
    let hechos = [
        Meta::Despejado(1),
        Meta::Despejado(-2),
        Meta::Despejado(-3),
        Meta::Menor(1, -1),
        Meta::Menor(1, -2),
        Meta::Menor(1, -3),
        Meta::Sobre(1, -1),
    ];
    let st = estado(&hechos, &[Stackeable::Objetivo(Meta::Sobre(1, -3))]);
    let r = Strips::new(st, Apilar::new(0, 0, 0), vec![Meta::Sobre(1, -3)], 1).resolver(u64::MAX).unwrap();
    assert_eq!(r.solucion, vec![Apilar::new(1, -1, -3)]);
    assert!(r.cumple_meta(Meta::Sobre(1, -3)));
    assert!(r.cumple_meta(Meta::Despejado(-1)));
}

#[test]
fn hanoi_solutions_are_optimal_and_valid() {
    for n in 1..=7i8 {
        let st = hanoi(n).expect("the puzzle has a solution");
        assert!(st.stack_objetivos.is_empty());
        assert_eq!(st.solucion.len(), (1usize << n) - 1);
        let varillas = simula(n, &st.solucion);
        let torre: Vec<i8> = (1..=n).rev().collect();
        assert_eq!(varillas, vec![vec![], vec![], torre]);
        for i in 1..n {
            assert!(st.cumple_meta(Meta::Sobre(i, i + 1)));
        }
        assert!(st.cumple_meta(Meta::Sobre(n, -3)));
    }
}

#[test]
fn hanoi_three_disks_starts_with_smallest_to_target() {
    let st = hanoi(3).unwrap();
    assert_eq!(st.solucion[0], Apilar::new(1, 2, -3));
    assert_eq!(st.solucion.last().unwrap().x, 1);
}

#[test]
fn state_eq_reflexive_and_transitive() {
    let pila = [Stackeable::Conjuncion([1, 2])];
    let a = estado(&[Meta::Despejado(1)], &pila);
    let b = estado(&[Meta::Despejado(1), Meta::Despejado(2)], &pila);
    let c = estado(&[Meta::Despejado(1), Meta::Despejado(2), Meta::Sobre(1, 2)], &pila);
    assert!(a.eq(&a) && b.eq(&b) && c.eq(&c));
    assert!(a.eq(&b) && b.eq(&c) && a.eq(&c));
    assert!(!c.eq(&a));
}

#[test]
fn hanoi_one_disk_single_move() {
    let st = hanoi(1).expect("one disk is solved");
    assert_eq!(st.solucion, vec![Apilar::new(1, -1, -3)]);
}

#[test]
fn hanoi_no_disk_gives_nothing() {
    assert!(hanoi(0).is_none());
}

#[test]
fn hanoi_two_disks_three_moves() {
    let st = hanoi(2).expect("two disks are solved");
    assert_eq!(
        st.solucion,
        vec![Apilar::new(1, 2, -2), Apilar::new(2, -1, -3), Apilar::new(1, -2, 2)]
    );
}

#[test]
fn hanoi_negative_counts_give_nothing() {
    for n in [-1i8, -2, -3, -7, i8::MIN] {
        assert!(hanoi(n).is_none());
    }
}

#[test]
fn resumen_tiempos_mean_best_worst() {
    assert_eq!(hanoi::resumen_tiempos(10, 4), (7, 4, 10));
    assert_eq!(hanoi::resumen_tiempos(3, 8), (5, 3, 8));
    assert_eq!(hanoi::resumen_tiempos(0, 0), (0, 0, 0));
    assert_eq!(hanoi::resumen_tiempos(u128::MAX, 0), (u128::MAX / 2, 0, u128::MAX));
}

fn hechos_iniciales(n: i8) -> Vec<Meta> {
    let mut v = vec![Meta::Despejado(1), Meta::Despejado(-2), Meta::Despejado(-3)];
    for d in 2..=n {
        for i in 1..d {
            v.push(Meta::Menor(i, d));
        }
    }
    for i in 1..=n {
        for p in -3..0 {
            v.push(Meta::Menor(i, p));
        }
    }
    for i in 1..n {
        v.push(Meta::Sobre(i, i + 1));
    }
    v.push(Meta::Sobre(n, -1));
    v
}

#[test]
fn executable_moves_keep_the_number_of_facts() {
    let n = 4i8;
    let plan = hanoi(n).unwrap().solucion;
    let mut st = StripsState::new(hechos_iniciales(n), vec![], 4);
    let total = st.clave().1.len();
    for a in &plan {
        assert!(a.es_ejecutable(&st));
        st = a.aplica_accion(&st);
        assert_eq!(st.clave().1.len(), total);
    }
    for i in 1..n {
        assert!(st.cumple_meta(Meta::Sobre(i, i + 1)));
    }
    assert!(st.cumple_meta(Meta::Sobre(n, -3)));
}

#[test]
fn move_back_restores_the_facts() {
    let st = StripsState::new(hechos_iniciales(2), vec![], 2);
    let ida = Apilar::new(1, 2, -3);
    let vuelta = Apilar::new(1, -3, 2);
    assert!(ida.es_ejecutable(&st));
    let st2 = ida.aplica_accion(&st);
    assert!(vuelta.es_ejecutable(&st2));
    let st3 = vuelta.aplica_accion(&st2);
    assert_eq!(st3.clave().1, st.clave().1);
}
