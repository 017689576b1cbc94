use raytracer::key::{key_bits, order_key, SIGN_BIT};

#[test]
fn positive_zero_sits_at_the_sign_bit() {
    assert_eq!(order_key(0.0f32.to_bits()), SIGN_BIT);
    assert_eq!(order_key((-0.0f32).to_bits()), SIGN_BIT - 1);
}

#[test]
fn keys_order_floats_by_value() {
    let values = [-1.0e30f32, -2.5, -1.0, -0.001, -0.0, 0.0, 0.001, 1.0, 2.5, 1.0e30];
    for w in values.windows(2) {
        assert!(order_key(w[0].to_bits()) < order_key(w[1].to_bits()), "{} < {}", w[0], w[1]);
    }
}

#[test]
fn keys_convert_back_to_the_same_float() {
    for v in [-3.75f32, -0.0, 0.0, 1.5, 1000.0, f32::MAX, f32::MIN] {
        assert_eq!(f32::from_bits(key_bits(order_key(v.to_bits()))).to_bits(), v.to_bits());
    }
    assert_eq!(key_bits(u32::MAX), 0x7FFF_FFFF);
    assert_eq!(key_bits(0), u32::MAX);
}

#[test]
fn exact_key_values() {
    assert_eq!(order_key(1.0f32.to_bits()), 0x3F80_0000 + 0x8000_0000);
    assert_eq!(order_key((-1.0f32).to_bits()), u32::MAX - 0xBF80_0000);
}
