use tonnetz::{ArpeggioFill, FillStrategy, Mode, NoFill, PitchClass, Triad};

#[test]
fn no_fill_never_produces_anything() {
    let mut fill = NoFill;
    assert_eq!(fill.fills(Triad::new(0, Mode::Major)), vec![]);
}

#[test]
fn arpeggio_fill_cycles_third_fifth_root() {
    let c_major = Triad::new(0, Mode::Major); // {C=0, E=4, G=7}
    let mut fill = ArpeggioFill { count: 3 };
    let fills = fill.fills(c_major);
    let pitches: Vec<PitchClass> = fills.iter().map(|f| f.pitch).collect();
    assert_eq!(pitches, vec![PitchClass::new(4), PitchClass::new(7), PitchClass::new(0)]);
}

#[test]
fn arpeggio_fill_places_count_points_evenly_and_ascending() {
    let mut fill = ArpeggioFill { count: 2 };
    let fills = fill.fills(Triad::new(0, Mode::Major));
    let fractions: Vec<f64> = fills.iter().map(|f| f.numerator as f64 / f.denominator as f64).collect();
    assert_eq!(fractions, vec![1.0 / 3.0, 2.0 / 3.0]);
    assert!(fractions.iter().all(|&f| f > 0.0 && f < 1.0));
    assert!(fractions.windows(2).all(|w| w[0] < w[1]));
}

#[test]
fn arpeggio_fill_with_zero_count_produces_nothing() {
    let mut fill = ArpeggioFill { count: 0 };
    assert_eq!(fill.fills(Triad::new(0, Mode::Major)), vec![]);
}

#[test]
fn arpeggio_fill_on_a_minor_triad_wraps_back_to_the_third() {
    let mut fill = ArpeggioFill { count: 4 };
    let fills = fill.fills(Triad::new(9, Mode::Minor)); // {A=9, C=0, E=4}
    let pitches: Vec<u8> = fills.iter().map(|f| f.pitch.0).collect();
    assert_eq!(pitches, vec![0, 4, 9, 0]);
    assert!(fills.iter().all(|f| f.denominator == 5));
}
