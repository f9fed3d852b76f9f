use seismic::FloatBits;

fn bits(value: f32) -> FloatBits {
    FloatBits { bits: value.to_bits() }
}

fn samples() -> Vec<f32> {
    let mut values = vec![
        0.0,
        -0.0,
        1.0,
        -1.0,
        0.5,
        -2.25,
        f32::MIN_POSITIVE,
        f32::from_bits(1),
        f32::from_bits(0x8000_0001),
        f32::MAX,
        f32::MIN,
        f32::INFINITY,
        f32::NEG_INFINITY,
        f32::NAN,
        f32::from_bits(0x7f80_0001),
        f32::from_bits(0xff80_0001),
        f32::from_bits(0xffff_ffff),
        f32::from_bits(0x7fff_ffff),
    ];
    for i in 0..200_u32 {
        values.push(f32::from_bits(i.wrapping_mul(0x9e37_79b9)));
    }
    values
}

#[test]
fn keys_follow_the_total_order() {
    for &a in &samples() {
        for &b in &samples() {
            assert_eq!(
                bits(a).total_order_key().cmp(&bits(b).total_order_key()),
                a.total_cmp(&b),
                "{} {}",
                a,
                b
            );
        }
    }
}

#[test]
fn greater_than_is_the_numerical_comparison() {
    for &a in &samples() {
        for &b in &samples() {
            assert_eq!(bits(a).greater_than(bits(b)), a > b, "{} {}", a, b);
        }
    }
}

#[test]
fn a_key_leads_back_to_its_value() {
    for &a in &samples() {
        assert_eq!(FloatBits::from_total_order_key(bits(a).total_order_key()), bits(a));
    }
}

#[test]
fn keys_of_known_values() {
    assert_eq!(bits(0.0).total_order_key(), 0);
    assert_eq!(bits(-0.0).total_order_key(), -1);
    assert_eq!(bits(1.0).total_order_key(), 0x3f80_0000);
    assert_eq!(FloatBits { bits: u32::MAX }.total_order_key(), i32::MIN);
    assert_eq!(FloatBits::zero(), bits(0.0));
}
