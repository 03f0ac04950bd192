use wavetable::oscillator::WavetableOscillator;

#[test]
fn fresh_oscillator_is_silent_and_at_zero() {
    let osc = WavetableOscillator::new(44100, vec![7, 8, 9]);
    assert_eq!(osc.index(), 0);
    assert_eq!(osc.index_increment(), 0);
    assert_eq!(osc.channels(), 1);
    assert_eq!(osc.sample_rate(), 44100);
    assert!(osc.current_frame_len().is_none());
}

#[test]
fn first_sample_is_slot_zero_regardless_of_increment() {
    // Whatever the frequency, the very first sample is the table at slot 0:
    // the oscillator reads before it advances.
    let mut osc = WavetableOscillator::new(2, vec![123, 456]);
    osc.set_frequency(1_000_000);
    assert_eq!(osc.get_sample(), 123);

    let mut osc2 = WavetableOscillator::new(44100, vec![-321, 5, 5, 5]);
    osc2.set_frequency(44000);
    assert_eq!(osc2.get_sample(), -321);
}

#[test]
fn periodicity_whole_slot_increment() {
    // Rate 1, table length 4, frequency 0.25 Hz: one slot per sample, so the
    // table repeats exactly every 4 samples.
    let mut osc = WavetableOscillator::new(1, vec![10, 20, -30, 40]);
    osc.set_frequency(25);
    assert_eq!(osc.index_increment(), 100);
    let first = osc.get_sample();
    assert_eq!(first, 10);
    assert_eq!(osc.get_sample(), 20);
    assert_eq!(osc.get_sample(), -30);
    assert_eq!(osc.get_sample(), 40);
    assert_eq!(osc.get_sample(), first);
}

#[test]
fn periodicity_two_slot_increment() {
    // Increment of 2 slots divides the table length 4: period is 2 samples.
    let mut osc = WavetableOscillator::new(1, vec![10, 20, -30, 40]);
    osc.set_frequency(50);
    let first = osc.get_sample();
    assert_eq!(first, 10);
    assert_eq!(osc.get_sample(), -30);
    assert_eq!(osc.get_sample(), first);
}

#[test]
fn interpolation_midpoints() {
    // Rate 1 (phase unit 1/100 slot), table [1000, -500], increment 1.5
    // slots: indices 0, 1.5, 1.0, 0.5, 0 hit both table entries and the
    // midpoints between them, including across the wrap.
    let mut osc = WavetableOscillator::new(1, vec![1000, -500]);
    osc.set_frequency(75);
    assert_eq!(osc.get_sample(), 1000);
    assert_eq!(osc.get_sample(), 250);
    assert_eq!(osc.get_sample(), -500);
    assert_eq!(osc.get_sample(), 250);
    assert_eq!(osc.get_sample(), 1000);
}

#[test]
fn boundary_wrap_interpolates_toward_slot_zero() {
    // Near the end of the table the value interpolates from the last entry
    // back toward entry 0, so the wrap is continuous: no jump larger than
    // the adjacent-entry delta.
    let mut osc = WavetableOscillator::new(1, vec![100, -100]);
    osc.set_frequency(99);
    assert_eq!(osc.get_sample(), 100);
    // index 1.98: between -100 and 100, 98% of the way back up
    assert_eq!(osc.get_sample(), 96);
    // index 1.96 after wrapping past 2.0
    assert_eq!(osc.get_sample(), 92);
}

#[test]
fn interpolation_truncates_toward_zero() {
    // -0.5 truncates to 0 and -1.5 truncates to -1 (not floored to -1/-2).
    let mut a = WavetableOscillator::new(1, vec![0, -1]);
    a.set_frequency(75);
    a.get_sample();
    assert_eq!(a.get_sample(), 0);

    let mut b = WavetableOscillator::new(1, vec![0, -3]);
    b.set_frequency(75);
    b.get_sample();
    assert_eq!(b.get_sample(), -1);
}

#[test]
fn frequency_scaling_is_linear() {
    // increment = frequency * table_len / rate, held as an exact fraction
    // over 100 * rate: in numerator units, centihertz * table_len.
    let mut osc = WavetableOscillator::new(44100, vec![0; 64]);
    osc.set_frequency(44000);
    let inc = osc.index_increment();
    assert_eq!(inc, 44000 * 64);
    osc.set_frequency(88000);
    assert_eq!(osc.index_increment(), 2 * inc);
}

#[test]
fn aliasing_increment_keeps_index_in_table() {
    // A frequency large enough to skip whole tables per sample is permitted;
    // the index still wraps into [0, table length).
    let mut osc = WavetableOscillator::new(1, vec![4, 5, 6, 7]);
    osc.set_frequency(u32::MAX);
    for _ in 0..10 {
        osc.get_sample();
        assert!(osc.index() < 400);
    }
}

#[test]
fn single_entry_table_is_constant() {
    let mut osc = WavetableOscillator::new(8, vec![-77]);
    osc.set_frequency(12345);
    for _ in 0..5 {
        assert_eq!(osc.get_sample(), -77);
    }
}

#[test]
fn render_matches_sample_by_sample_pull() {
    let mut a = WavetableOscillator::new(1, vec![1000, -500]);
    a.set_frequency(75);
    let mut b = WavetableOscillator::new(1, vec![1000, -500]);
    b.set_frequency(75);
    let rendered = a.render(5);
    let pulled: Vec<i16> = (0..5).map(|_| b.get_sample()).collect();
    assert_eq!(rendered, pulled);
    assert_eq!(rendered, vec![1000, 250, -500, 250, 1000]);
    assert_eq!(a.index(), b.index());
}
