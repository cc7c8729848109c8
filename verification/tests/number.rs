use varf::number::{below, key_of, same_number, Number, INFINITY_BITS, NEG_INFINITY_BITS, SIGN_BIT};

fn samples() -> Vec<f32> {
    vec![
        f32::NEG_INFINITY,
        f32::MIN,
        -1.0e10,
        -2.5,
        -1.0,
        -f32::MIN_POSITIVE,
        -1.0e-45,
        -0.0,
        0.0,
        1.0e-45,
        f32::MIN_POSITIVE,
        0.5,
        1.0,
        1.5,
        2.0,
        3.25,
        1.0e10,
        f32::MAX,
        f32::INFINITY,
    ]
}

#[test]
fn keys_order_numbers_as_their_values_do() {
    let all = samples();
    for a in &all {
        for b in &all {
            assert_eq!(below(a.to_bits(), b.to_bits()), a < b);
            assert_eq!(same_number(a.to_bits(), b.to_bits()), a == b);
            assert_eq!(key_of(a.to_bits()) <= key_of(b.to_bits()), a <= b);
        }
    }
}

#[test]
fn both_zeros_have_the_key_zero() {
    assert_eq!(key_of(0.0f32.to_bits()), 0);
    assert_eq!(key_of((-0.0f32).to_bits()), 0);
    assert_eq!(key_of(SIGN_BIT), 0);
}

#[test]
fn exact_keys() {
    assert_eq!(key_of(1), 1);
    assert_eq!(key_of(SIGN_BIT + 1), -1);
    assert_eq!(key_of(1.0f32.to_bits()), 0x3f80_0000);
    assert_eq!(key_of((-1.0f32).to_bits()), -0x3f80_0000);
    assert_eq!(key_of(u32::MAX), -0x7fff_ffff);
    assert_eq!(key_of(0x7fff_ffff), 0x7fff_ffff);
}

#[test]
fn the_infinities_are_those_of_the_machine() {
    assert_eq!(INFINITY_BITS, f32::INFINITY.to_bits());
    assert_eq!(NEG_INFINITY_BITS, f32::NEG_INFINITY.to_bits());
    assert_eq!(SIGN_BIT, (-0.0f32).to_bits());
}

#[test]
fn the_infinities_lie_beyond_every_finite_number() {
    assert!(below(f32::MAX.to_bits(), INFINITY_BITS));
    assert!(below(NEG_INFINITY_BITS, f32::MIN.to_bits()));
}

#[test]
fn what_is_no_number_lies_beyond_the_infinities() {
    let nan = f32::NAN.to_bits() & !SIGN_BIT;
    assert!(below(INFINITY_BITS, nan));
    assert!(below(nan | SIGN_BIT, NEG_INFINITY_BITS));
}

#[test]
fn a_number_clones_with_its_text() {
    let n = Number { bits: 1.5f32.to_bits(), text: "1.5".to_string() };
    let m = n.clone();
    assert_eq!(m.bits, n.bits);
    assert_eq!(m.text, "1.5");
}
