use seismic::quantization::value_bounds;
use seismic::{quantize, FloatArithmetic, FloatBits};

fn bits(value: f32) -> FloatBits {
    FloatBits { bits: value.to_bits() }
}

fn value(float: FloatBits) -> f32 {
    f32::from_bits(float.bits)
}

struct Native;

impl FloatArithmetic for Native {
    fn add(&self, a: FloatBits, b: FloatBits) -> FloatBits {
        bits(value(a) + value(b))
    }

    fn sub(&self, a: FloatBits, b: FloatBits) -> FloatBits {
        bits(value(a) - value(b))
    }

    fn mul(&self, a: FloatBits, b: FloatBits) -> FloatBits {
        bits(value(a) * value(b))
    }

    fn div(&self, a: FloatBits, b: FloatBits) -> FloatBits {
        bits(value(a) / value(b))
    }

    fn from_usize(&self, n: usize) -> FloatBits {
        bits(n as f32)
    }

    fn to_usize(&self, a: FloatBits) -> usize {
        value(a) as usize
    }

    fn round_to_u8(&self, a: FloatBits) -> u8 {
        value(a).round() as u8
    }
}

fn quantized(values: &[f32]) -> (f32, f32, Vec<u8>) {
    let values: Vec<FloatBits> = values.iter().map(|&v| bits(v)).collect();
    let (min, quant, levels) = quantize(&values, &Native);
    (value(min), value(quant), levels)
}

#[test]
fn values_are_numbered_by_their_block() {
    assert_eq!(quantized(&[10.0, 0.0, 255.0, 127.4]), (0.0, 1.0, vec![10, 0, 255, 127]));
}

#[test]
fn blocks_start_at_the_least_value() {
    assert_eq!(quantized(&[-510.0, 0.0, -255.0]), (-510.0, 2.0, vec![0, 255, 128]));
}

#[test]
fn a_range_of_width_zero_puts_every_value_into_the_first_block() {
    assert_eq!(quantized(&[3.5]), (3.5, 0.0, vec![0]));
    assert_eq!(quantized(&[3.5, 3.5, 3.5]), (3.5, 0.0, vec![0, 0, 0]));
}

#[test]
fn equal_input_is_quantized_alike() {
    let values = [0.1, 0.7, 0.3, 0.9, 0.2];
    assert_eq!(quantized(&values), quantized(&values));
}

#[test]
fn bounds_follow_the_total_order() {
    let values: Vec<FloatBits> = [0.0, -0.0, 4.0, -7.0, 2.0].iter().map(|&v| bits(v)).collect();
    assert_eq!(value_bounds(&values), (bits(-7.0), bits(4.0)));
    assert_eq!(value_bounds(&[bits(0.0), bits(-0.0)]), (bits(-0.0), bits(0.0)));
    assert_eq!(value_bounds(&[bits(5.0)]), (bits(5.0), bits(5.0)));
}

#[test]
fn levels_keep_the_order_of_finite_values() {
    let lists = [
        vec![0.3, -0.0, 0.0, 7.5, 7.4999, -3.0, 1.0e-40],
        vec![f32::MAX, f32::MIN, 0.0, 1.0],
        vec![f32::from_bits(1), 0.0, f32::from_bits(2)],
    ];
    for values in &lists {
        let (_, _, levels) = quantized(values);
        for i in 0..values.len() {
            for j in 0..values.len() {
                if values[i] <= values[j] {
                    assert!(levels[i] <= levels[j], "{} {}", values[i], values[j]);
                }
            }
        }
    }
}
