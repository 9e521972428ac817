use mindfry::setun::{
    Cortex, Octet, Quantizer, RetentionBuffer, Trit, AGGRESSION, CURIOSITY, EMPATHY, PRESERVATION,
};

fn ratio(v: i64) -> f64 {
    v as f64 / 1_000_000.0
}

#[test]
fn test_trit_consensus() {
    assert_eq!(Trit::True * Trit::True, Trit::True);
    assert_eq!(Trit::False * Trit::False, Trit::True);
    assert_eq!(Trit::True * Trit::False, Trit::False);
    assert_eq!(Trit::False * Trit::True, Trit::False);
    assert_eq!(Trit::Unknown * Trit::True, Trit::Unknown);
    assert_eq!(Trit::Unknown * Trit::False, Trit::Unknown);
    assert_eq!(Trit::Unknown * Trit::Unknown, Trit::Unknown);
}

#[test]
fn test_trit_inversion() {
    assert_eq!(!Trit::True, Trit::False);
    assert_eq!(!Trit::False, Trit::True);
    assert_eq!(!Trit::Unknown, Trit::Unknown);
}

#[test]
fn test_trit_weight() {
    assert_eq!(Trit::False.weight(), -1);
    assert_eq!(Trit::Unknown.weight(), 0);
    assert_eq!(Trit::True.weight(), 1);
}

#[test]
fn test_trit_from_i8() {
    assert_eq!(Trit::from_i8_saturating(5), Trit::True);
    assert_eq!(Trit::from_i8_saturating(1), Trit::True);
    assert_eq!(Trit::from_i8_saturating(0), Trit::Unknown);
    assert_eq!(Trit::from_i8_saturating(-1), Trit::False);
    assert_eq!(Trit::from_i8_saturating(-100), Trit::False);
}

#[test]
fn consensus_commutes_and_associates_on_all_trits() {
    let all = [Trit::False, Trit::Unknown, Trit::True];
    for a in all {
        for b in all {
            assert_eq!(a.consensus(b), b.consensus(a));
            for c in all {
                assert_eq!(a.consensus(b).consensus(c), a.consensus(b.consensus(c)));
            }
        }
    }
}

#[test]
fn test_octet_perfect_resonance() {
    let left = Octet::new([Trit::True; 8]);
    let right = Octet::new([Trit::True; 8]);
    assert!((ratio(left.resonance(&right)) - 1.0).abs() < f64::EPSILON);
}

#[test]
fn test_octet_perfect_opposition() {
    let left = Octet::new([Trit::True; 8]);
    let right = Octet::new([Trit::False; 8]);
    assert!((ratio(left.resonance(&right)) - (-1.0)).abs() < f64::EPSILON);
}

#[test]
fn test_octet_neutral_resonance() {
    let left = Octet::neutral();
    let right = Octet::new([Trit::True; 8]);
    assert_eq!(ratio(left.resonance(&right)), 0.0);
}

#[test]
fn test_octet_partial_resonance() {
    let mut vals1 = [Trit::Unknown; 8];
    vals1[0] = Trit::True;
    vals1[1] = Trit::True;
    vals1[2] = Trit::False;
    vals1[3] = Trit::False;
    let left = Octet::new(vals1);

    let mut vals2 = [Trit::Unknown; 8];
    vals2[0] = Trit::True;
    vals2[1] = Trit::False;
    vals2[2] = Trit::True;
    vals2[3] = Trit::False;
    let right = Octet::new(vals2);

    assert_eq!(ratio(left.resonance(&right)), 0.0);
}

#[test]
fn test_octet_dissonance() {
    let left = Octet::new([Trit::True; 8]);
    let right = Octet::new([Trit::False; 8]);
    assert!((ratio(left.dissonance(&right)) - 1.0).abs() < f64::EPSILON);
    let same = Octet::new([Trit::True; 8]);
    assert_eq!(ratio(left.dissonance(&same)), 0.0);
}

#[test]
fn resonance_rounds_down_in_millionths() {
    // two agree, one disagrees: 1/3
    let mut a = Octet::neutral();
    let mut b = Octet::neutral();
    for d in 0..3 {
        a.set(d, Trit::True);
        b.set(d, Trit::True);
    }
    b.set(2, Trit::False);
    assert_eq!(a.resonance_terms(&b), (1, 3));
    assert_eq!(a.resonance(&b), 333_333);
    // one agrees, two disagree: -1/3 rounds down
    b.set(1, Trit::False);
    assert_eq!(a.resonance(&b), -333_334);
    assert_eq!(a.dissonance(&b), 333_334);
}

#[test]
fn resonance_with_all_zero_octet_is_zero() {
    let z = Octet::neutral();
    let o = Octet::new([
        Trit::True,
        Trit::False,
        Trit::True,
        Trit::Unknown,
        Trit::False,
        Trit::True,
        Trit::False,
        Trit::True,
    ]);
    assert_eq!(z.resonance_terms(&o), (0, 0));
    assert_eq!(o.resonance(&z), 0);
    assert_eq!(z.resonance(&o), 0);
}

#[test]
fn test_octet_pack_unpack() {
    let octet = Octet::new([
        Trit::True,
        Trit::False,
        Trit::Unknown,
        Trit::True,
        Trit::False,
        Trit::Unknown,
        Trit::True,
        Trit::False,
    ]);
    let packed = octet.pack();
    let unpacked = Octet::unpack(packed);
    assert_eq!(octet, unpacked);
}

#[test]
fn pack_layout_and_unused_code() {
    let mut o = Octet::neutral();
    o.set(0, Trit::True);
    o.set(1, Trit::False);
    assert_eq!(o.pack(), 0b1101);
    // code 10 reads as unknown
    let u = Octet::unpack(0b10);
    assert_eq!(u.get(0), Trit::Unknown);
}

#[test]
fn test_octet_dimension_access() {
    let mut o = Octet::neutral();
    o.set(CURIOSITY, Trit::True);
    o.set(AGGRESSION, Trit::False);
    assert_eq!(o.get(CURIOSITY), Trit::True);
    assert_eq!(o.get(AGGRESSION), Trit::False);
    assert_eq!(o.get(EMPATHY), Trit::Unknown);
}

#[test]
fn test_quantizer_neutral_mood() {
    let q = Quantizer::new(500_000);
    assert_eq!(q.quantize(600_000, 0), Trit::True);
    assert_eq!(q.quantize(400_000, 0), Trit::Unknown);
    assert_eq!(q.quantize(-600_000, 0), Trit::False);
}

#[test]
fn test_quantizer_positive_mood() {
    let q = Quantizer::new(500_000);
    assert_eq!(q.quantize(450_000, 1_000_000), Trit::True);
    assert_eq!(q.quantize(350_000, 1_000_000), Trit::Unknown);
}

#[test]
fn test_quantizer_negative_mood() {
    let q = Quantizer::new(500_000);
    assert_eq!(q.quantize(550_000, -1_000_000), Trit::Unknown);
    assert_eq!(q.quantize(650_000, -1_000_000), Trit::True);
}

#[test]
fn test_quantizer_default() {
    let q = Quantizer::default();
    assert_eq!(q.threshold(), 330_000);
}

#[test]
fn quantize_zero_is_unknown_for_every_mood() {
    for base in [0, 10_000, 330_000, 2_000_000] {
        let q = Quantizer::new(base);
        for mood in [-1_000_000, -500_000, 0, 500_000, 1_000_000, i64::MAX, i64::MIN] {
            assert_eq!(q.quantize(0, mood), Trit::Unknown);
        }
    }
}

#[test]
fn quantizer_threshold_floor() {
    // base 0 with a positive mood would drop below 0.01; the floor holds
    let q = Quantizer::new(0);
    assert_eq!(q.quantize(10_000, 1_000_000), Trit::Unknown);
    assert_eq!(q.quantize(10_001, 1_000_000), Trit::True);
    assert_eq!(q.quantize(-10_001, 1_000_000), Trit::False);
}

#[test]
fn test_cortex_creation() {
    let cortex = Cortex::default();
    assert_eq!(cortex.mood(), 0);
    assert_eq!(*cortex.personality(), Octet::neutral());
}

#[test]
fn test_cortex_mood_shift() {
    let mut cortex = Cortex::default();
    cortex.shift_mood(500_000);
    assert_eq!(cortex.mood(), 500_000);
    cortex.shift_mood(800_000);
    assert_eq!(cortex.mood(), 1_000_000);
    cortex.shift_mood(-2_500_000);
    assert_eq!(cortex.mood(), -1_000_000);
}

#[test]
fn test_cortex_mood_set() {
    let mut cortex = Cortex::default();
    cortex.set_mood(750_000);
    assert_eq!(cortex.mood(), 750_000);
    cortex.set_mood(2_000_000);
    assert_eq!(cortex.mood(), 1_000_000);
}

#[test]
fn test_cortex_evaluate() {
    let mut personality = Octet::neutral();
    personality.set(CURIOSITY, Trit::True);
    personality.set(PRESERVATION, Trit::True);
    let cortex = Cortex::new(personality);

    let mut event = Octet::neutral();
    event.set(CURIOSITY, Trit::True);
    assert!(cortex.evaluate(&event) > 0);

    let mut conflict = Octet::neutral();
    conflict.set(CURIOSITY, Trit::False);
    conflict.set(PRESERVATION, Trit::False);
    assert!(cortex.evaluate(&conflict) < 0);
}

#[test]
fn test_cortex_decide() {
    let cortex = Cortex::default();
    assert_eq!(cortex.decide(800_000), Trit::True);
    assert_eq!(cortex.decide(200_000), Trit::Unknown);
    assert_eq!(cortex.decide(-500_000), Trit::False);
}

#[test]
fn test_cortex_consciousness_state() {
    let cortex = Cortex::default();
    assert_eq!(cortex.consciousness_state(900_000, 500_000), Trit::True);
    assert_eq!(cortex.consciousness_state(200_000, 500_000), Trit::False);
    assert_eq!(cortex.consciousness_state(600_000, 500_000), Trit::True);
    assert_eq!(cortex.consciousness_state(520_000, 500_000), Trit::Unknown);
    assert_eq!(cortex.consciousness_state(950_000, 800_000), Trit::True);
}

#[test]
fn consciousness_gain_follows_mood() {
    // delta 0.05: gain 2.5 at mood -1 gives 0.125, below the raised threshold 0.43
    let mut cortex = Cortex::default();
    cortex.set_mood(-1_000_000);
    assert_eq!(cortex.consciousness_state(550_000, 500_000), Trit::Unknown);
    // delta 0.05: gain 7.5 at mood +1 gives 0.375, above the lowered threshold 0.23
    cortex.set_mood(1_000_000);
    assert_eq!(cortex.consciousness_state(550_000, 500_000), Trit::True);
}

#[test]
fn test_cortex_mood_affects_decision() {
    let mut cortex = Cortex::with_threshold(Octet::neutral(), 500_000);
    assert_eq!(cortex.decide(450_000), Trit::Unknown);
    cortex.set_mood(1_000_000);
    assert_eq!(cortex.decide(450_000), Trit::True);
    cortex.set_mood(-1_000_000);
    assert_eq!(cortex.decide(550_000), Trit::Unknown);
}

#[test]
fn test_retention_buffer_creation() {
    let buffer = RetentionBuffer::new(5);
    assert_eq!(buffer.default_ttl(), 5);
    assert_eq!(buffer.pending_count(), 0);
}

#[test]
fn test_retention_buffer_mark_and_tick() {
    let mut buffer = RetentionBuffer::new(3);
    assert!(!buffer.mark_or_tick(42));
    assert!(buffer.is_pending(42));
    assert_eq!(buffer.remaining_ttl(42), Some(2));
    assert!(!buffer.mark_or_tick(42));
    assert_eq!(buffer.remaining_ttl(42), Some(1));
    assert!(!buffer.mark_or_tick(42));
    assert_eq!(buffer.remaining_ttl(42), Some(0));
    assert!(buffer.mark_or_tick(42));
    assert!(!buffer.is_pending(42));
}

#[test]
fn retention_zero_ttl_first_tick_is_not_ready() {
    let mut buffer = RetentionBuffer::new(0);
    assert!(!buffer.mark_or_tick(7));
    assert_eq!(buffer.remaining_ttl(7), Some(0));
    assert!(buffer.mark_or_tick(7));
    assert_eq!(buffer.remaining_ttl(7), None);
}

#[test]
fn test_retention_buffer_restore() {
    let mut buffer = RetentionBuffer::new(3);
    buffer.mark_or_tick(100);
    assert!(buffer.is_pending(100));
    buffer.restore(100);
    assert!(!buffer.is_pending(100));
    assert_eq!(buffer.pending_count(), 0);
}

#[test]
fn test_retention_buffer_multiple_items() {
    let mut buffer = RetentionBuffer::new(2);
    buffer.mark_or_tick(1);
    buffer.mark_or_tick(2);
    buffer.mark_or_tick(3);
    assert_eq!(buffer.pending_count(), 3);
    buffer.restore(2);
    assert_eq!(buffer.pending_count(), 2);
    buffer.clear();
    assert_eq!(buffer.pending_count(), 0);
}

#[test]
fn test_cortex_has_retention_buffer() {
    let mut cortex = Cortex::default();
    assert_eq!(cortex.pending_removal_count(), 0);
    cortex.mark_or_tick(99);
    assert_eq!(cortex.pending_removal_count(), 1);
    cortex.restore(99);
    assert_eq!(cortex.pending_removal_count(), 0);
}
