use cellular::deep;
use cellular::flat;
use cellular::AutomataRules;
use cellular::Method;
use cellular::Rule;

fn state_at_2d(cells: &[(flat::Vec2, u8)], x: usize, y: usize) -> u8 {
    let want = flat::Vec2::new(x, y);
    for (c, s) in cells {
        if *c == want {
            return *s;
        }
    }
    panic!("coordinate missing from snapshot");
}

fn state_at_3d(cells: &[(deep::Vec3, u8)], x: usize, y: usize, z: usize) -> u8 {
    let want = deep::Vec3::new(x, y, z);
    for (c, s) in cells {
        if *c == want {
            return *s;
        }
    }
    panic!("coordinate missing from snapshot");
}

fn live_set_2d(cells: &[(flat::Vec2, u8)]) -> Vec<flat::Vec2> {
    let mut live = Vec::new();
    for (c, s) in cells {
        if *s > 0 {
            live.push(*c);
        }
    }
    live.sort();
    live
}

fn life_rules() -> AutomataRules {
    AutomataRules::new(Rule::Range(2, 4), Rule::Single(3), 2, Method::Moore)
}

#[test]
fn density_after_construction_2d() {
    let a = flat::Automaton::new(life_rules(), flat::Vec2::new(4, 5), vec![flat::Vec2::new(1, 1)])
        .unwrap();
    assert_eq!(a.get_cells().len(), 20);
}

#[test]
fn density_after_construction_3d() {
    let rules = AutomataRules::new(Rule::Single(4), Rule::Single(4), 5, Method::Moore);
    let a = deep::Automaton::new(rules, deep::Vec3::new(3, 4, 5), vec![]).unwrap();
    assert_eq!(a.get_cells().len(), 60);
}

#[test]
fn snapshot_is_row_major() {
    let a = flat::Automaton::new(life_rules(), flat::Vec2::new(2, 3), vec![]).unwrap();
    let cells = a.get_cells();
    let expected = [(0, 0), (0, 1), (0, 2), (1, 0), (1, 1), (1, 2)];
    assert_eq!(cells.len(), expected.len());
    for (i, (x, y)) in expected.iter().enumerate() {
        assert_eq!(cells[i].0, flat::Vec2::new(*x, *y));
    }
}

#[test]
fn seed_fidelity_2d() {
    let rules = AutomataRules::new(Rule::Single(3), Rule::Single(3), 7, Method::Moore);
    let seed = vec![flat::Vec2::new(0, 0), flat::Vec2::new(2, 1)];
    let a = flat::Automaton::new(rules, flat::Vec2::new(3, 3), seed).unwrap();
    let cells = a.get_cells();
    for x in 0..3 {
        for y in 0..3 {
            let expected = if (x, y) == (0, 0) || (x, y) == (2, 1) { 6 } else { 0 };
            assert_eq!(state_at_2d(&cells, x, y), expected);
        }
    }
}

#[test]
fn seed_outside_bounds_is_ignored() {
    let seed = vec![flat::Vec2::new(5, 5)];
    let a = flat::Automaton::new(life_rules(), flat::Vec2::new(3, 3), seed).unwrap();
    for (_, s) in a.get_cells() {
        assert_eq!(s, 0);
    }
}

#[test]
fn validation_boundary_3d_moore() {
    let too_big = AutomataRules::new(Rule::Single(27), Rule::Single(4), 2, Method::Moore);
    let r = deep::Automaton::new(too_big, deep::Vec3::new(2, 2, 2), vec![]);
    assert!(matches!(r, Err(26)));

    let just_fits = AutomataRules::new(Rule::Single(26), Rule::Single(4), 2, Method::Moore);
    assert!(deep::Automaton::new(just_fits, deep::Vec3::new(2, 2, 2), vec![]).is_ok());
}

#[test]
fn validation_boundary_2d() {
    let r = flat::Automaton::new(
        AutomataRules::new(Rule::Single(9), Rule::Single(3), 2, Method::Moore),
        flat::Vec2::new(2, 2),
        vec![],
    );
    assert!(matches!(r, Err(8)));

    let r = flat::Automaton::new(
        AutomataRules::new(Rule::Single(2), Rule::Single(5), 2, Method::VonNeumann),
        flat::Vec2::new(2, 2),
        vec![],
    );
    assert!(matches!(r, Err(4)));
}

#[test]
fn validation_checks_range_endpoints() {
    // The exclusive end is itself validated, so 0..9 is rejected in two
    // dimensions even though it accepts no count above eight.
    let r = flat::Automaton::new(
        AutomataRules::new(Rule::Range(0, 9), Rule::Single(3), 2, Method::Moore),
        flat::Vec2::new(2, 2),
        vec![],
    );
    assert!(matches!(r, Err(8)));
}

#[test]
fn validation_checks_every_many_element() {
    let r = flat::Automaton::new(
        AutomataRules::new(Rule::Many(vec![2, 3, 9]), Rule::Single(3), 2, Method::Moore),
        flat::Vec2::new(2, 2),
        vec![],
    );
    assert!(matches!(r, Err(8)));
}

#[test]
fn empty_grid_stays_dead() {
    let mut a = flat::Automaton::new(life_rules(), flat::Vec2::new(6, 6), vec![]).unwrap();
    for _ in 0..5 {
        a.tick();
        for (_, s) in a.get_cells() {
            assert_eq!(s, 0);
        }
    }
}

#[test]
fn decay_runs_to_zero_regardless_of_rules() {
    // An empty survival range matches nothing, so the lone live cell
    // starts decaying and steps down by exactly one per tick.
    let rules = AutomataRules::new(Rule::Range(0, 0), Rule::Single(3), 5, Method::Moore);
    let mut a =
        flat::Automaton::new(rules, flat::Vec2::new(3, 3), vec![flat::Vec2::new(1, 1)]).unwrap();
    assert_eq!(state_at_2d(&a.get_cells(), 1, 1), 4);
    for expected in [3, 2, 1, 0, 0] {
        a.tick();
        assert_eq!(state_at_2d(&a.get_cells(), 1, 1), expected);
    }
}

#[test]
fn survival_counts_zero_neighbors() {
    // A survival rule accepting zero keeps an isolated cell alive forever.
    let rules = AutomataRules::new(Rule::Single(0), Rule::Single(6), 3, Method::VonNeumann);
    let mut a =
        deep::Automaton::new(rules, deep::Vec3::new(3, 3, 3), vec![deep::Vec3::new(1, 1, 1)])
            .unwrap();
    for _ in 0..3 {
        a.tick();
        assert_eq!(state_at_3d(&a.get_cells(), 1, 1, 1), 2);
    }
}

#[test]
fn empty_birth_range_births_nothing() {
    let rules = AutomataRules::new(Rule::Range(2, 4), Rule::Range(3, 3), 2, Method::Moore);
    let seed = vec![flat::Vec2::new(1, 1), flat::Vec2::new(1, 2), flat::Vec2::new(2, 1)];
    let mut a = flat::Automaton::new(rules, flat::Vec2::new(4, 4), seed.clone()).unwrap();
    a.tick();
    // The three seeded cells each have two live neighbors and survive,
    // but no dead cell can be born under an empty birth range.
    let mut expected = seed;
    expected.sort();
    assert_eq!(live_set_2d(&a.get_cells()), expected);
}

#[test]
fn blinker_oscillates() {
    let seed = vec![flat::Vec2::new(1, 2), flat::Vec2::new(2, 2), flat::Vec2::new(3, 2)];
    let mut a = flat::Automaton::new(life_rules(), flat::Vec2::new(5, 5), seed.clone()).unwrap();
    a.tick();
    let vertical = vec![flat::Vec2::new(2, 1), flat::Vec2::new(2, 2), flat::Vec2::new(2, 3)];
    assert_eq!(live_set_2d(&a.get_cells()), vertical);
    a.tick();
    let mut horizontal = seed;
    horizontal.sort();
    assert_eq!(live_set_2d(&a.get_cells()), horizontal);
}

#[test]
fn glider_translates_by_one_one_after_four_ticks() {
    let seed = vec![
        flat::Vec2::new(1, 0),
        flat::Vec2::new(2, 1),
        flat::Vec2::new(0, 2),
        flat::Vec2::new(1, 2),
        flat::Vec2::new(2, 2),
    ];
    let mut a = flat::Automaton::new(life_rules(), flat::Vec2::new(10, 10), seed.clone()).unwrap();
    for _ in 0..4 {
        a.tick();
    }
    let mut expected: Vec<flat::Vec2> =
        seed.iter().map(|c| c.add(flat::Vec2::new(1, 1))).collect();
    expected.sort();
    assert_eq!(live_set_2d(&a.get_cells()), expected);
}

#[test]
fn par_tick_matches_tick() {
    let seed = vec![
        flat::Vec2::new(1, 0),
        flat::Vec2::new(2, 1),
        flat::Vec2::new(0, 2),
        flat::Vec2::new(1, 2),
        flat::Vec2::new(2, 2),
        flat::Vec2::new(5, 5),
        flat::Vec2::new(5, 6),
        flat::Vec2::new(6, 5),
        flat::Vec2::new(6, 6),
    ];
    let rules = AutomataRules::new(Rule::Many(vec![2, 3]), Rule::Single(3), 3, Method::Moore);
    let mut seq_a =
        flat::Automaton::new(rules.clone(), flat::Vec2::new(9, 9), seed.clone()).unwrap();
    let mut par_a = flat::Automaton::new(rules, flat::Vec2::new(9, 9), seed).unwrap();
    for _ in 0..6 {
        seq_a.tick();
        par_a.par_tick();
        let s = seq_a.get_cells();
        let p = par_a.get_cells();
        assert_eq!(s.len(), p.len());
        for i in 0..s.len() {
            assert!(s[i].0 == p[i].0);
            assert_eq!(s[i].1, p[i].1);
        }
    }
}

#[test]
fn many_rule_matches_listed_counts_only() {
    // Conway's rules written with an explicit list instead of a range
    // drive the same blinker.
    let rules = AutomataRules::new(Rule::Many(vec![2, 3]), Rule::Many(vec![3]), 2, Method::Moore);
    let seed = vec![flat::Vec2::new(1, 2), flat::Vec2::new(2, 2), flat::Vec2::new(3, 2)];
    let mut a = flat::Automaton::new(rules, flat::Vec2::new(5, 5), seed).unwrap();
    a.tick();
    let vertical = vec![flat::Vec2::new(2, 1), flat::Vec2::new(2, 2), flat::Vec2::new(2, 3)];
    assert_eq!(live_set_2d(&a.get_cells()), vertical);
}

#[test]
fn von_neumann_ignores_diagonals() {
    // A lone live cell whose only company is diagonal counts zero
    // neighbors under von Neumann adjacency, so birth at count one
    // happens only along the axes.
    let rules = AutomataRules::new(Rule::Range(0, 4), Rule::Single(1), 2, Method::VonNeumann);
    let mut a =
        flat::Automaton::new(rules, flat::Vec2::new(3, 3), vec![flat::Vec2::new(0, 0)]).unwrap();
    a.tick();
    let cells = a.get_cells();
    assert_eq!(state_at_2d(&cells, 0, 1), 1);
    assert_eq!(state_at_2d(&cells, 1, 0), 1);
    assert_eq!(state_at_2d(&cells, 1, 1), 0);
    assert_eq!(state_at_2d(&cells, 0, 0), 1);
}

#[test]
fn zero_sized_grid_is_empty() {
    let a = flat::Automaton::new(life_rules(), flat::Vec2::new(0, 7), vec![]).unwrap();
    assert_eq!(a.get_cells().len(), 0);
}

#[test]
fn vec2_arithmetic() {
    let a = flat::Vec2::new(3, 4);
    let b = flat::Vec2::new(1, 2);
    assert_eq!(a.add(b), flat::Vec2::new(4, 6));
    assert_eq!(a.sub(b), flat::Vec2::new(2, 2));
    assert_eq!(flat::Vec2::default(), flat::Vec2::new(0, 0));
}

#[test]
fn vec3_arithmetic() {
    let a = deep::Vec3::new(3, 4, 5);
    let b = deep::Vec3::new(1, 2, 3);
    assert_eq!(a.add(b), deep::Vec3::new(4, 6, 8));
    assert_eq!(a.sub(b), deep::Vec3::new(2, 2, 2));
    assert_eq!(deep::Vec3::default(), deep::Vec3::new(0, 0, 0));
}

#[test]
fn three_dimensional_tick_uses_all_moore_neighbors() {
    // A 2x2x2 block of live cells: each has seven live Moore neighbors.
    let rules = AutomataRules::new(Rule::Single(7), Rule::Single(26), 2, Method::Moore);
    let mut seed = Vec::new();
    for x in 1..3 {
        for y in 1..3 {
            for z in 1..3 {
                seed.push(deep::Vec3::new(x, y, z));
            }
        }
    }
    let mut a = deep::Automaton::new(rules, deep::Vec3::new(4, 4, 4), seed.clone()).unwrap();
    a.tick();
    let cells = a.get_cells();
    for c in &seed {
        assert_eq!(state_at_3d(&cells, 0, 0, 0), 0);
        let mut found = false;
        for (cc, s) in &cells {
            if cc == c {
                assert_eq!(*s, 1);
                found = true;
            }
        }
        assert!(found);
    }
}

#[test]
fn validation_boundary_3d_von_neumann() {
    let rules = AutomataRules::new(Rule::Single(7), Rule::Single(3), 2, Method::VonNeumann);
    let r = deep::Automaton::new(rules, deep::Vec3::new(2, 2, 2), vec![]);
    assert!(matches!(r, Err(6)));
}

#[test]
fn par_tick_on_empty_grid() {
    let mut a = flat::Automaton::new(life_rules(), flat::Vec2::new(0, 3), vec![]).unwrap();
    a.par_tick();
    assert_eq!(a.get_cells().len(), 0);
}
