use rand::SeedableRng;
use rand::rngs::StdRng;
use tonnetz::{Euclidean, WindowedDurations, bjorklund};

#[test]
fn bjorklund_matches_known_patterns() {
    // E(3,8) is the tresillo, a standard reference case (Toussaint 2005).
    assert_eq!(bjorklund(3, 8), vec![true, false, false, true, false, false, true, false]);
    // E(2,5).
    assert_eq!(bjorklund(2, 5), vec![true, false, true, false, false]);
}

#[test]
fn bjorklund_always_places_exactly_pulses_onsets() {
    for steps in 1..=32 {
        for pulses in 1..=steps {
            let pattern = bjorklund(pulses, steps);
            assert_eq!(pattern.len(), steps);
            assert_eq!(pattern.iter().filter(|&&b| b).count(), pulses);
        }
    }
}

#[test]
fn bjorklund_more_known_patterns() {
    assert_eq!(bjorklund(5, 8), vec![true, false, true, true, false, true, true, false]);
    assert_eq!(bjorklund(4, 4), vec![true; 4]);
    assert_eq!(bjorklund(1, 3), vec![true, false, false]);
}

#[test]
fn euclidean_3_8_cycles_with_the_tresillo_gaps() {
    let rhythm = Euclidean::new(3, 8);
    let as_f64 = |(o, d): (u128, usize)| (o as f64, d as f64);
    assert_eq!(as_f64(rhythm.timing(0)), (0.0, 3.0));
    assert_eq!(as_f64(rhythm.timing(1)), (3.0, 3.0));
    assert_eq!(as_f64(rhythm.timing(2)), (6.0, 2.0));
    assert_eq!(as_f64(rhythm.timing(3)), (8.0, 3.0)); // second cycle
    assert_eq!(as_f64(rhythm.timing(5)), (14.0, 2.0));
}

#[test]
fn euclidean_events_chain_onset_to_onset() {
    let rhythm = Euclidean::new(5, 12);
    for i in 0..40 {
        let (onset, duration) = rhythm.timing(i);
        assert!(duration > 0);
        assert_eq!(onset + duration as u128, rhythm.timing(i + 1).0);
    }
}

#[test]
fn windowed_durations_never_repeats_within_the_window() {
    let palette = vec![0.25, 0.5, 1.0];
    let mut rhythm = WindowedDurations::with_rng(2, palette.len(), StdRng::seed_from_u64(1));
    // The library chooses palette indices; summing the chosen durations
    // into onsets is the caller's part.
    let mut history = Vec::new();
    for i in 0..100 {
        let index = rhythm.next_index(i);
        let d = palette[index];
        history.push(d);
        if history.len() >= 2 {
            assert_ne!(history[history.len() - 1], history[history.len() - 2]);
        }
    }
}

#[test]
fn windowed_durations_avoid_the_whole_window_when_the_palette_allows() {
    let mut rhythm = WindowedDurations::new(3, 4);
    let mut chosen: Vec<usize> = Vec::new();
    for i in 0..60 {
        let index = rhythm.next_index(i);
        assert!(index < 4);
        let start = chosen.len().saturating_sub(3);
        assert!(!chosen[start..].contains(&index));
        chosen.push(index);
    }
}

#[test]
fn windowed_durations_relax_to_the_least_recently_used() {
    // A window as large as the palette: after 0 and 1 are used, both are
    // tabu, and 0 was used longest ago.
    let mut rhythm = WindowedDurations::with_rng(2, 2, StdRng::seed_from_u64(9));
    let first = rhythm.next_index(0);
    let second = rhythm.next_index(1);
    assert_ne!(first, second);
    assert_eq!(rhythm.next_index(2), first);
    assert_eq!(rhythm.next_index(3), second);
}

/// The gaps from each onset to the next, the last wrapping to the first.
fn cyclic_gaps(pattern: &[bool]) -> Vec<usize> {
    let onsets: Vec<usize> = (0..pattern.len()).filter(|&i| pattern[i]).collect();
    (0..onsets.len())
        .map(|k| if k + 1 < onsets.len() { onsets[k + 1] - onsets[k] } else { pattern.len() - onsets[k] + onsets[0] })
        .collect()
}

#[test]
fn bjorklund_gaps_differ_by_at_most_one() {
    assert_eq!(cyclic_gaps(&bjorklund(3, 8)), vec![3, 3, 2]);
    assert_eq!(cyclic_gaps(&bjorklund(5, 8)), vec![2, 1, 2, 1, 2]);
    for steps in 1..=32 {
        for pulses in 1..=steps {
            let pattern = bjorklund(pulses, steps);
            assert!(pattern[0], "E({pulses},{steps}) starts on an onset");
            let gaps = cyclic_gaps(&pattern);
            let (lo, hi) = (*gaps.iter().min().unwrap(), *gaps.iter().max().unwrap());
            assert!(hi - lo <= 1, "E({pulses},{steps}) has gaps {gaps:?}");
            assert_eq!(lo, steps / pulses);
            assert_eq!(gaps.iter().sum::<usize>(), steps);
        }
    }
}

#[test]
fn euclidean_repeats_every_cycle() {
    let rhythm = Euclidean::new(5, 12);
    for i in 0..30 {
        let (onset, duration) = rhythm.timing(i);
        assert_eq!(rhythm.timing(i + 5), (onset + 12, duration));
    }
    assert_eq!(rhythm.pulses(), 5);
    assert_eq!(rhythm.step_count(), 12);
}

#[test]
fn euclidean_timing_reaches_the_last_cycle_that_fits() {
    // One pulse per one-slot cycle: event usize::MAX starts at slot
    // usize::MAX, the last cycle start that fits.
    let rhythm = Euclidean::new(1, 1);
    assert!(rhythm.fits_index(usize::MAX));
    assert_eq!(rhythm.timing(usize::MAX), (usize::MAX as u128, 1));
    // With two slots a cycle, the cycle start overflows well before that.
    let wide = Euclidean::new(1, 2);
    assert!(!wide.fits_index(usize::MAX));
    assert!(wide.fits_index(usize::MAX / 2));
    assert_eq!(wide.timing(usize::MAX / 2).0, (usize::MAX / 2) as u128 * 2);
}
