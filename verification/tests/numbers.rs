use microkimi::fp8::dequant_fp8;
use microkimi::fp8::product_bits;
use microkimi::imatrix::cap_text;
use microkimi::imatrix::load;
use microkimi::imatrix::restarts;
use microkimi::imatrix::Calibration;
use microkimi::imatrix::ImatrixError;
use microkimi::imatrix::RoutedDims;
use microkimi::minifloat::bf16_slice_to_f32;
use microkimi::minifloat::bf16_to_f32;
use microkimi::minifloat::e4m3_to_f32;
use microkimi::minifloat::f16_to_f32;
use microkimi::minifloat::f32_to_e4m3;
use microkimi::minifloat::f32_to_f16;
use microkimi::mxfp4::dequant;
use microkimi::mxfp4::exp2_i;
use microkimi::mxfp4::nearest_level;
use microkimi::mxfp4::pack_levels;
use microkimi::mxfp4::packed_parts;
use microkimi::mxfp4::scale_from_byte;
use microkimi::mxfp4::search_mx_scale;
use microkimi::q8::block_dot;
use microkimi::q8::block_dot_i8;
use microkimi::q8::row_block_dots;
use microkimi::q8::xsum12;
use microkimi::q8::Q8Toggle;
use microkimi::quant::column_weights;
use microkimi::quant::distinct_start;
use microkimi::quant::follow_slot;
use microkimi::quant::gather_vq;
use microkimi::quant::nearest;
use microkimi::quant::replace_at;
use microkimi::quant::worst;
use microkimi::quant::Reservoir;
use microkimi::quant::Rng;
use microkimi::quant::Slot;
use microkimi::rank::key_of;
use microkimi::rank::ranked;
use microkimi::rank::ranked_scores;
use microkimi::rank::top_n;
use microkimi::rank::top_scores;
use microkimi::weights::DTYPE_F32;
use microkimi::weights::DTYPE_MXFP4;
use microkimi::weights::DTYPE_MXFP4SQ;

const E2M1_X2: [i8; 16] = [0, 1, 2, 3, 4, 6, 8, 12, 0, -1, -2, -3, -4, -6, -8, -12];
const E2M1: [f32; 16] = [
    0.0, 0.5, 1.0, 1.5, 2.0, 3.0, 4.0, 6.0, -0.0, -0.5, -1.0, -1.5, -2.0, -3.0, -4.0, -6.0,
];

struct Stream(u64);

impl Stream {
    fn u8(&mut self) -> u8 {
        self.0 = self.0.wrapping_add(0x9E3779B97F4A7C15);
        let mut z = self.0;
        z = (z ^ (z >> 30)).wrapping_mul(0xBF58476D1CE4E5B9);
        z = (z ^ (z >> 27)).wrapping_mul(0x94D049BB133111EB);
        (z ^ (z >> 31)) as u8
    }
}

fn dot_block_scalar(packed16: &[u8], x32: &[i8]) -> i32 {
    let mut s = 0i32;
    for j in 0..16 {
        let b = packed16[j];
        s += E2M1_X2[(b & 0x0F) as usize] as i32 * x32[2 * j] as i32;
        s += E2M1_X2[(b >> 4) as usize] as i32 * x32[2 * j + 1] as i32;
    }
    s
}

fn dot_i8_scalar(w32: &[i8], x32: &[i8]) -> i32 {
    let mut s = 0i32;
    for j in 0..32 {
        s += w32[j] as i32 * x32[j] as i32;
    }
    s
}

#[test]
fn q8_block_dot_simd_equals_scalar() {
    let mut rng = Stream(0xDEADBEEF);
    for _ in 0..2000 {
        let packed: Vec<u8> = (0..16).map(|_| rng.u8()).collect();
        let x: Vec<i8> = (0..32).map(|_| (rng.u8() % 255) as i8).collect();
        assert_eq!(block_dot(&packed, &x), dot_block_scalar(&packed, &x));
    }
    // extremes: max magnitude weights and activation
    let packed = vec![0x77u8; 16]; // +6 and +6 (x2 = 12)
    let x = vec![127i8; 32];
    assert_eq!(block_dot(&packed, &x), dot_block_scalar(&packed, &x));
    let packed = vec![0xFFu8; 16]; // -6 and -6
    assert_eq!(block_dot(&packed, &x), dot_block_scalar(&packed, &x));
}

#[test]
fn q8_block_dot_i8_simd_equals_scalar() {
    let mut rng = Stream(0x12345678);
    for _ in 0..2000 {
        let w: Vec<i8> = (0..32).map(|_| (rng.u8() % 255) as i8).collect();
        let x: Vec<i8> = (0..32).map(|_| (rng.u8() % 255) as i8).collect();
        assert_eq!(block_dot_i8(&w, &x), dot_i8_scalar(&w, &x));
    }
    // extremes: +-127 on both sides (the i16 saturation boundary)
    let w = vec![127i8; 32];
    let x = vec![127i8; 32];
    assert_eq!(block_dot_i8(&w, &x), dot_i8_scalar(&w, &x));
    let w = vec![-127i8; 32];
    assert_eq!(block_dot_i8(&w, &x), dot_i8_scalar(&w, &x));
    let x = vec![-127i8; 32];
    assert_eq!(block_dot_i8(&w, &x), dot_i8_scalar(&w, &x));
}

#[test]
fn rows_are_dotted_block_by_block() {
    let mut rng = Stream(7);
    let packed: Vec<u8> = (0..48).map(|_| rng.u8()).collect();
    let q: Vec<i8> = (0..96).map(|_| (rng.u8() % 255) as i8).collect();
    assert_eq!(
        row_block_dots(&packed, &q, &[2, 0]),
        vec![dot_block_scalar(&packed[32..], &q[64..]), dot_block_scalar(&packed, &q)]
    );
    // the table shifted up by twelve is right once twelve times the sum comes off
    let sums = xsum12(&q);
    for g in 0..3 {
        let mut shifted = 0i32;
        for j in 0..32 {
            let b = packed[g * 16 + j / 2];
            let nib = if j % 2 == 0 { b & 15 } else { b >> 4 };
            shifted += (E2M1_X2[nib as usize] as i32 + 12) * q[g * 32 + j] as i32;
        }
        assert_eq!(shifted - sums[g], row_block_dots(&packed, &q, &[g])[0]);
    }
}

#[test]
fn integer_path_follows_its_switch() {
    let mut t = Q8Toggle::new();
    assert!(t.q8_enabled(None));
    assert!(!t.q8_enabled(Some("1")));
    assert!(t.q8_enabled(Some("0")));
    t.force_q8(1);
    assert!(t.q8_enabled(Some("1")));
    t.force_q8(0);
    assert!(!t.q8_enabled(None));
    t.force_q8(-1);
    assert!(t.q8_enabled(None));
}

#[test]
fn round_trips_and_rounds_to_nearest_even() {
    for &x in &[0.0f32, 1.0, -2.5, 65504.0, 6.1e-5, 1e-6, 0.333_251_95, 1e-3] {
        let h = f32_to_f16(x.to_bits());
        let back = f32::from_bits(f16_to_f32(h));
        assert!((back - x).abs() <= x.abs() * 1e-3 + 1e-7, "{x} -> {h:#x} -> {back}");
    }
    assert_eq!(f32_to_f16(1.0f32.to_bits()), 0x3c00);
    assert_eq!(f32_to_f16(f32::INFINITY.to_bits()), 0x7c00);
    // ties to even: 1 + 2^-11 lies exactly between two halves -> even
    assert_eq!(f32_to_f16((1.0 + 2f32.powi(-11)).to_bits()), 0x3c00);
}

#[test]
fn halves_survive_widening() {
    for h in 0..=0xffffu16 {
        let bits = f16_to_f32(h);
        if f32::from_bits(bits).is_nan() {
            assert!(h & 0x7fff > 0x7c00);
        } else {
            assert_eq!(f32_to_f16(bits), h);
        }
    }
    // overflow goes to infinity
    assert_eq!(f32_to_f16(65520.0f32.to_bits()), 0x7c00);
    assert_eq!(f32_to_f16((-1e9f32).to_bits()), 0xfc00);
}

#[test]
fn eight_bit_codes_survive_widening() {
    assert_eq!(f32::from_bits(e4m3_to_f32(0x7e)), 448.0);
    assert_eq!(f32::from_bits(e4m3_to_f32(0x38)), 1.0);
    assert_eq!(f32::from_bits(e4m3_to_f32(0x01)), 2f32.powi(-9));
    assert!(f32::from_bits(e4m3_to_f32(0x7f)).is_nan());
    for b in 0..=255u8 {
        if b & 0x7f != 0x7f {
            assert_eq!(f32_to_e4m3(e4m3_to_f32(b)), b);
        }
    }
    // saturates, and rounds ties to even
    assert_eq!(f32_to_e4m3(1000.0f32.to_bits()), 0x7e);
    assert_eq!(f32_to_e4m3(1.0625f32.to_bits()), 0x38);
    assert_eq!(f32_to_e4m3(1.1875f32.to_bits()), 0x3a);
}

#[test]
fn brain_floats_widen_exactly() {
    assert_eq!(f32::from_bits(bf16_to_f32(0x3f80)), 1.0);
    assert_eq!(bf16_slice_to_f32(&[0x80, 0x3f, 0x20, 0xc0]), vec![1.0f32.to_bits(), (-2.5f32).to_bits()]);
}

#[test]
fn four_bit_weights_unpack_exactly() {
    // every level under three scales
    let levels: Vec<u8> = (0..96).map(|i| (i % 16) as u8).collect();
    let packed = pack_levels(&levels);
    assert_eq!(packed[0], 0x10);
    let scales = [127u8, 125, 130];
    let out = dequant(&packed, &scales, 1, 96);
    for c in 0..96 {
        let want = E2M1[c % 16] * 2f32.powi(scales[c / 32] as i32 - 127);
        assert_eq!(f32::from_bits(out[c]), want);
    }
    assert_eq!(f32::from_bits(scale_from_byte(0)), 2f32.powi(-127));
    assert_eq!(f32::from_bits(scale_from_byte(127)), 1.0);
    assert_eq!(f32::from_bits(exp2_i(10)), 1024.0);
}

#[test]
fn levels_are_the_nearest() {
    for (x, want) in [(0.2f32, 0u8), (0.25, 1), (0.7, 1), (1.74, 3), (1.75, 4), (2.5, 5), (4.9, 6), (5.0, 7), (9.0, 7)] {
        assert_eq!(nearest_level(x.to_bits()), want);
        assert_eq!(nearest_level((-x).to_bits()), want + 8);
    }
}

#[test]
fn packed_blobs_fall_apart() {
    let blob: Vec<u8> = (0..40).collect();
    let p = packed_parts(DTYPE_MXFP4, &blob[..34], 2, 32).unwrap();
    assert_eq!(p.packed, &blob[..32]);
    assert_eq!(p.scales, &blob[32..34]);
    assert_eq!(p.smax, None);
    let p = packed_parts(DTYPE_MXFP4SQ, &blob[..38], 2, 32).unwrap();
    assert_eq!(p.smax, Some(u32::from_le_bytes([34, 35, 36, 37])));
    assert!(packed_parts(DTYPE_MXFP4, &blob[..31], 2, 32).is_none());
    assert!(packed_parts(DTYPE_MXFP4SQ, &blob[..37], 2, 32).is_none());
    assert!(packed_parts(DTYPE_F32, &blob, 2, 32).is_none());
}

#[test]
fn scale_search_takes_the_smaller_error() {
    let b = |x: f64| x.to_bits();
    assert_eq!(search_mx_scale(0, b(3.0), b(2.0), b(1.0)), 1);
    assert_eq!(search_mx_scale(0, b(3.0), b(1.0), b(2.0)), -1);
    assert_eq!(search_mx_scale(0, b(1.0), b(1.0), b(1.0)), 0);
    assert_eq!(search_mx_scale(-127, b(3.0), b(1.0), b(4.0)), -127);
    assert_eq!(search_mx_scale(128, b(3.0), b(4.0), b(1.0)), 128);
}

#[test]
fn eight_bit_weights_unpack_by_blocks() {
    let (rows, cols) = (129usize, 130usize);
    let w: Vec<u8> = (0..rows * cols).map(|i| (i % 120) as u8).collect();
    let scales = [127u8, 128, 126, 120];
    let out = dequant_fp8(&w, &scales, rows, cols);
    for (r, c) in [(0, 0), (0, 129), (128, 5), (128, 129), (77, 128)] {
        let s = scales[(r / 128) * 2 + c / 128] as i32 - 127;
        let want = f32::from_bits(e4m3_to_f32(w[r * cols + c])) * 2f32.powi(s);
        assert_eq!(f32::from_bits(out[r * cols + c]), want);
    }
    assert_eq!(f32::from_bits(product_bits(0x38, 130)), 8.0);
}

#[test]
fn random_numbers_are_splitmix() {
    let mut r = Rng::new(0);
    assert_eq!(r.next_u64(), 0xE220_A839_7B1D_CDAF);
    assert_eq!(r.next_u64(), 0x6E78_9E6A_A1B9_65F4);
    let mut r = Rng::new(0);
    assert_eq!(r.below(10), (0xE220_A839_7B1D_CDAFu64 % 10) as usize);
}

#[test]
fn reservoirs_keep_their_size() {
    let mut r: Reservoir<u32> = Reservoir::new(2, 1);
    for i in 0..20u32 {
        let v = [i; 16];
        let slot = r.offer(&v);
        if i < 2 {
            assert_eq!(slot, Slot::Append);
        } else if let Slot::Replace(j) = slot {
            assert!(r.values[16 * j..16 * j + 16].iter().all(|&x| x == i));
        }
        assert_eq!(r.values.len(), 16 * (i as usize + 1).min(2));
    }
    assert_eq!(r.seen, 20);
    let mut values: Vec<u32> = (0..48).collect();
    replace_at(&mut values, 1, &[9; 16]);
    assert_eq!(values[15], 15);
    assert_eq!(values[16], 9);
    assert_eq!(values[31], 9);
    assert_eq!(values[32], 32);
}

#[test]
fn samples_take_whole_tensors() {
    let mut one: Reservoir<u32> = Reservoir::new(3, 7);
    let mut all: Reservoir<u32> = Reservoir::new(3, 7);
    let mut shadow: Vec<u32> = Vec::new();
    let w: Vec<u32> = (0..16 * 9 + 5).collect();
    let slots = all.offer_all(&w);
    for (i, v) in w.chunks_exact(16).enumerate() {
        assert_eq!(one.offer(v), slots[i]);
        follow_slot(&mut shadow, slots[i], v);
    }
    assert_eq!(slots.len(), 9);
    assert_eq!((all.seen, one.seen), (9, 9));
    assert_eq!(all.values, one.values);
    assert_eq!(shadow, all.values);
    let cw: Vec<u32> = (0..32).collect();
    assert_eq!(column_weights(Some(&cw), 3, 2, 1), (16..32).collect::<Vec<u32>>());
    assert_eq!(column_weights(Some(&cw), 4, 2, 1), (0..16).collect::<Vec<u32>>());
    assert_eq!(column_weights(None, 4, 2, 1u32), vec![1; 16]);
}

#[test]
fn nearest_and_worst_are_picked() {
    let bits = |v: &[f64]| -> Vec<u64> { v.iter().map(|x| x.to_bits()).collect() };
    assert_eq!(nearest(&bits(&[3.0, 1.0, 2.0, 1.0])), 1);
    assert_eq!(nearest(&bits(&[f64::NAN, 5.0])), 1);
    assert_eq!(nearest(&bits(&[f64::NAN, f64::INFINITY])), 0);
    assert_eq!(nearest(&[]), 0);
    assert_eq!(worst(&bits(&[1.0, 4.0, 2.0, 4.0, 0.0])), Some(1));
    assert_eq!(worst(&bits(&[2.0, 2.0])), Some(0));
    assert_eq!(worst(&bits(&[1.0, f64::NAN])), None);
    assert_eq!(worst(&bits(&[f64::NAN])), Some(0));
    assert_eq!(worst(&[]), Some(0));
    assert_eq!(ranked_scores(&bits(&[0.5, -1.0, 2.0, 0.5])), Some(vec![2, 0, 3, 1]));
    assert_eq!(ranked_scores(&bits(&[0.5, f64::NAN])), None);
}

#[test]
fn codebook_starts_are_distinct() {
    let mut r = Rng::new(3);
    let mut chosen = distinct_start(&mut r, 5);
    chosen.sort();
    assert_eq!(chosen, vec![0, 1, 2, 3, 4]);
    let mut r = Rng::new(3);
    assert_eq!(distinct_start(&mut r, 1000).len(), 256);
    let cb: Vec<u32> = (0..4096).collect();
    let out = gather_vq(&[3, 0], &cb);
    assert_eq!(out[0], 48);
    assert_eq!(out[15], 63);
    assert_eq!(out[16], 0);
    assert_eq!(out.len(), 32);
}

#[test]
fn rankings_break_ties_by_index() {
    assert_eq!(ranked(&[3, 9, 9, 1]), vec![1, 2, 0, 3]);
    assert_eq!(top_n(&[3, 9, 9, 1], 2), vec![1, 2]);
    assert_eq!(top_n(&[3, 9, 9, 1], 3), vec![0, 1, 2]);
    assert_eq!(top_n(&[3, 9], 5), vec![0, 1]);
    let bits: Vec<u64> = [0.5f64, -1.0, 2.0].iter().map(|x| x.to_bits()).collect();
    assert_eq!(top_scores(&bits, 2), Some(vec![0, 2]));
    assert_eq!(top_scores(&[f64::NAN.to_bits()], 1), None);
    assert!(key_of((-1.0f64).to_bits()) < key_of(0.5f64.to_bits()));
    assert_eq!(key_of((-0.0f64).to_bits()), key_of(0.0f64.to_bits()));
}

#[test]
fn statistics_read_back() {
    let mut c = Calibration::new();
    c.tick();
    assert!(c.acc.is_none());
    c.start(&RoutedDims { n_layers: 4, routed_hidden: 2, moe_inter: 3 }, vec![1, 3]);
    c.tick();
    c.tick();
    if let Some(im) = &mut c.acc {
        im.hidden[1][0] = 2.5f64.to_bits();
        im.inter[0][2] = 7.0f64.to_bits();
    }
    let im = c.stop().unwrap();
    assert!(c.stop().is_none());
    assert_eq!(im.tokens, 2);
    let bytes = im.to_bytes();
    assert_eq!(&bytes[..8], b"IMAT0001");
    let back = load(&bytes).unwrap();
    assert_eq!(back.n_layers, 4);
    assert_eq!(back.layers, vec![1, 3]);
    assert_eq!(back.hidden, im.hidden);
    assert_eq!(back.inter, im.inter);
    assert_eq!(back.to_bytes(), bytes);
    assert_eq!(back.slot(3), Some(1));
    assert_eq!(back.slot(2), None);
    assert_eq!(back.column_sums(3, "w1").unwrap()[0], 2.5f64.to_bits());
    assert_eq!(back.column_sums(1, "w2").unwrap()[2], 7.0f64.to_bits());
    assert!(back.column_sums(0, "w2").is_none());
    assert_eq!(load(&bytes[..20]).err(), Some(ImatrixError::Truncated));
    assert_eq!(load(b"IMAT0002xxxxxxxx").err(), Some(ImatrixError::BadMagic));
}

#[test]
fn calibration_text_is_cut_at_a_character() {
    assert_eq!(cap_text("abcdefgh", 1), "abcdef");
    assert_eq!(cap_text("ab", 1), "ab");
    assert_eq!(cap_text("abcdeé", 1), "abcde");
    assert!(restarts(8, 4));
    assert!(!restarts(9, 4));
}
