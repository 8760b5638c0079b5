use rand::rngs::StdRng;
use rand::{RngExt, SeedableRng};
use std::collections::HashSet;
use tonnetz::{
    CycleConfinedWalk, FreeWalk, HamiltonianCycleWalk, Mode, PLR, System, Triad, Utt, WalkStrategy,
    WindowedTabuWalk,
};

#[test]
fn free_walk_never_repeats_the_last_op() {
    let mut walk = FreeWalk::with_rng(StdRng::seed_from_u64(42));
    let mut t = Triad::new(0, Mode::Major);
    let mut last_op = None;
    for _ in 0..200 {
        let (next, op) = walk.next(t, &[]);
        assert_ne!(Some(op), last_op);
        last_op = Some(op);
        t = next;
    }
}

#[test]
fn windowed_tabu_walk_of_window_1_matches_free_walk_constraint() {
    let mut walk = WindowedTabuWalk::with_rng(1, StdRng::seed_from_u64(7));
    let mut t = Triad::new(0, Mode::Major);
    let mut history = vec![t];
    for _ in 0..200 {
        let (next, _) = walk.next(t, &history);
        assert_ne!(next, t, "window=1 must forbid immediate return");
        history.push(next);
        t = next;
    }
}

#[test]
fn windowed_tabu_walk_respects_larger_windows() {
    let mut walk = WindowedTabuWalk::with_rng(3, StdRng::seed_from_u64(7));
    let mut t = Triad::new(0, Mode::Major);
    let mut history = vec![t];
    for _ in 0..200 {
        let (next, _) = walk.next(t, &history);
        let tabu = &history[history.len().saturating_sub(3)..];
        // Only guaranteed when a legal (non-tabu) neighbor existed; the
        // relax-to-least-recent fallback can otherwise revisit.
        if PLR().iter().any(|op| !tabu.contains(&op.apply(t))) {
            assert!(!tabu.contains(&next));
        }
        history.push(next);
        t = next;
    }
}

#[test]
fn windowed_tabu_walk_relaxes_to_the_least_recently_visited_neighbor() {
    // From C major the neighbors are Cm (P), Em (L) and Am (R). With all
    // three in the window, Em was seen longest ago, so L is taken.
    let c = Triad::new(0, Mode::Major);
    let history = vec![Triad::new(4, Mode::Minor), Triad::new(9, Mode::Minor), Triad::new(0, Mode::Minor), c];
    let mut walk = WindowedTabuWalk::with_rng(4, StdRng::seed_from_u64(3));
    let (next, op) = walk.next(c, &history);
    assert_eq!(op, Utt::L());
    assert_eq!(next, Triad::new(4, Mode::Minor));
}

#[test]
fn hamiltonian_cycle_walk_visits_all_24_and_returns_home() {
    let mut walk = HamiltonianCycleWalk::new();
    let start = Triad::new(0, Mode::Major);
    let mut t = start;
    let mut seen = vec![t];
    for _ in 0..24 {
        let (next, _) = walk.next(t, &seen);
        t = next;
        seen.push(t);
    }
    assert_eq!(t, start);
    assert_eq!(seen[..24].iter().collect::<HashSet<_>>().len(), 24);
}

#[test]
fn cycle_confined_walk_with_zero_escape_stays_on_the_hexatonic_6_cycle() {
    let mut walk = CycleConfinedWalk::with_rng(System::Hexatonic, 0, 1, StdRng::seed_from_u64(1));
    let start = Triad::new(0, Mode::Major);
    let mut t = start;
    let mut seen = vec![t];
    for _ in 0..6 {
        let (next, op) = walk.next(t, &seen);
        assert!(op == Utt::P() || op == Utt::L(), "hexatonic confinement must not use R");
        t = next;
        seen.push(t);
    }
    assert_eq!(t, start);
    assert_eq!(seen[..6].iter().collect::<HashSet<_>>().len(), 6);
}

#[test]
fn cycle_confined_walk_with_zero_escape_stays_on_the_octatonic_8_cycle() {
    let mut walk = CycleConfinedWalk::with_rng(System::Octatonic, 0, 1, StdRng::seed_from_u64(1));
    let start = Triad::new(0, Mode::Major);
    let mut t = start;
    let mut seen = vec![t];
    for _ in 0..8 {
        let (next, op) = walk.next(t, &seen);
        assert!(op == Utt::P() || op == Utt::R(), "octatonic confinement must not use L");
        t = next;
        seen.push(t);
    }
    assert_eq!(t, start);
    assert_eq!(seen[..8].iter().collect::<HashSet<_>>().len(), 8);
}

#[test]
fn cycle_confined_walk_with_full_escape_matches_hamiltonian_cycle_walk() {
    // Escaping every step alternates R (hexatonic's third move) and L
    // (octatonic's third move) while toggling the system: exactly the R/L
    // Hamiltonian walk, starting from Hexatonic.
    let mut confined = CycleConfinedWalk::with_rng(System::Hexatonic, 1, 1, StdRng::seed_from_u64(99));
    let mut hamiltonian = HamiltonianCycleWalk::new();
    let mut t = Triad::new(0, Mode::Major);
    for _ in 0..24 {
        let (a, op_a) = confined.next(t, &[]);
        let (b, op_b) = hamiltonian.next(t, &[]);
        assert_eq!(a, b);
        assert_eq!(op_a, op_b);
        t = a;
    }
}

#[test]
fn free_walk_reports_no_current_system() {
    let walk = FreeWalk::with_rng(StdRng::seed_from_u64(1));
    assert_eq!(walk.current_system(), None);
}

#[test]
fn cycle_confined_walk_reports_its_current_system() {
    let mut walk = CycleConfinedWalk::with_rng(System::Hexatonic, 1, 1, StdRng::seed_from_u64(3));
    assert_eq!(walk.current_system(), Some(System::Hexatonic));
    let t = Triad::new(0, Mode::Major);
    walk.next(t, &[]); // full escape chance guarantees a toggle
    assert_eq!(walk.current_system(), Some(System::Octatonic));
}

// Alternating P/L from C major: C, Cm, Ab, Abm, E, Em.
#[test]
fn hexatonic_pitch_classes_match_the_c_major_augmented_collection() {
    let mut pcs: Vec<u8> = System::Hexatonic
        .pitch_classes(Triad::new(0, Mode::Major))
        .into_iter()
        .map(|pc| pc.0)
        .collect();
    pcs.sort();
    assert_eq!(pcs, vec![0, 3, 4, 7, 8, 11]);
}

// Same collection from any triad on that cycle (root mod 4 == 0).
#[test]
fn hexatonic_pitch_classes_are_shared_across_the_whole_cycle() {
    let from_ab_major = System::Hexatonic.pitch_classes(Triad::new(8, Mode::Major));
    let from_c_major = System::Hexatonic.pitch_classes(Triad::new(0, Mode::Major));
    let mut a: Vec<u8> = from_ab_major.into_iter().map(|pc| pc.0).collect();
    let mut b: Vec<u8> = from_c_major.into_iter().map(|pc| pc.0).collect();
    a.sort();
    b.sort();
    assert_eq!(a, b);
}

// Alternating P/R from C major: C, Cm, Eb, Ebm, F#, F#m, A, Am.
#[test]
fn octatonic_pitch_classes_match_the_c_major_diminished_collection() {
    let mut pcs: Vec<u8> = System::Octatonic
        .pitch_classes(Triad::new(0, Mode::Major))
        .into_iter()
        .map(|pc| pc.0)
        .collect();
    pcs.sort();
    assert_eq!(pcs, vec![0, 1, 3, 4, 6, 7, 9, 10]);
}

#[test]
fn cycle_confined_walk_never_repeats_the_last_op() {
    let mut walk = CycleConfinedWalk::with_rng(System::Hexatonic, 3, 10, StdRng::seed_from_u64(2024));
    let mut t = Triad::new(0, Mode::Major);
    let mut last_op = None;
    for _ in 0..500 {
        let (next, op) = walk.next(t, &[]);
        assert_ne!(Some(op), last_op);
        last_op = Some(op);
        t = next;
    }
}

#[test]
fn cycle_confined_step_with_escape_modulates_by_the_third_move() {
    let mut walk = CycleConfinedWalk::new(System::Octatonic, 0, 1);
    let c = Triad::new(0, Mode::Major);
    let (next, op) = walk.step_with(c, true);
    assert_eq!(op, Utt::L());
    assert_eq!(next, Triad::new(4, Mode::Minor));
    assert_eq!(walk.current_system(), Some(System::Hexatonic));
    // Back on the hexatonic pair, the move other than L comes next.
    let (_, op) = walk.step_with(next, false);
    assert_eq!(op, Utt::P());
}

#[test]
fn free_walk_moves_only_by_p_l_or_r() {
    let mut walk = FreeWalk::new();
    let mut t = Triad::new(5, Mode::Minor);
    for _ in 0..50 {
        let (next, op) = walk.next(t, &[]);
        assert!(PLR().contains(&op));
        assert_eq!(next, op.apply(t));
        t = next;
    }
}

#[test]
fn random_escape_chance_still_stays_near_the_systems() {
    // An escape chance drawn at run time, as a seeded caller would.
    let mut rng = StdRng::seed_from_u64(5);
    let numerator: u32 = rng.random_range(5..=35);
    let mut walk = CycleConfinedWalk::with_rng(System::Hexatonic, numerator, 100, rng);
    let mut t = Triad::new(0, Mode::Major);
    for _ in 0..100 {
        let system = walk.current_system().unwrap();
        let (next, op) = walk.next(t, &[]);
        let pair = match system {
            System::Hexatonic => [Utt::P(), Utt::L()],
            System::Octatonic => [Utt::P(), Utt::R()],
        };
        let escaped = walk.current_system() != Some(system);
        assert!(escaped || pair.contains(&op));
        t = next;
    }
}
