use candle_core::{DType, Device, Tensor};
use mamba_prefill::{Config, MambaBlock, MambaError, Model, ResidualBlock, VarBuilder, Weights};
use std::collections::HashMap;

/// Numbers that look random, between -1 and 1.
struct Numbers(u64);

impl Numbers {
    fn next(&mut self) -> f64 {
        self.0 = self.0.wrapping_mul(6364136223846793005).wrapping_add(1442695040888963407);
        ((self.0 >> 11) as f64) / ((1u64 << 52) as f64) - 1.0
    }

    fn tensor(&mut self, shape: &[usize], dt: DType) -> Tensor {
        let n: usize = shape.iter().product();
        let v: Vec<f64> = (0..n).map(|_| self.next()).collect();
        Tensor::from_vec(v, shape, &Device::Cpu).unwrap().to_dtype(dt).unwrap()
    }
}

fn config(d_model: usize) -> Config {
    Config {
        d_model,
        n_layer: 1,
        vocab_size: 5,
        pad_vocab_size_multiple: 1,
    }
}

fn weights(d_model: usize, seed: u64, dt: DType) -> Weights {
    let (inner, rank) = (2 * d_model, (d_model + 15) / 16);
    let mut r = Numbers(seed);
    Weights {
        in_proj: r.tensor(&[2 * inner, d_model], dt),
        conv_weight: r.tensor(&[inner, 1, 4], dt),
        conv_bias: r.tensor(&[inner], dt),
        x_proj: r.tensor(&[rank + 32, inner], dt),
        dt_weight: r.tensor(&[inner, rank], dt),
        dt_bias: r.tensor(&[inner], dt),
        a_log: r.tensor(&[inner, 16], dt),
        d: r.tensor(&[inner], dt),
        out_proj: r.tensor(&[d_model, inner], dt),
    }
}

fn matrix(t: &Tensor) -> Vec<Vec<f64>> {
    t.to_dtype(DType::F64).unwrap().to_vec2().unwrap()
}

fn vector(t: &Tensor) -> Vec<f64> {
    t.to_dtype(DType::F64).unwrap().to_vec1().unwrap()
}

fn cube(t: &Tensor) -> Vec<Vec<Vec<f64>>> {
    t.to_dtype(DType::F64).unwrap().to_vec3().unwrap()
}

fn silu(x: f64) -> f64 {
    x / (1.0 + (-x).exp())
}

fn times(m: &[Vec<f64>], x: &[f64]) -> Vec<f64> {
    m.iter().map(|row| row.iter().zip(x).map(|(a, b)| a * b).sum()).collect()
}

/// One token through a block, by the formulas.
fn step(w: &Weights, x: &[f64], h: &mut [Vec<f64>], taps: &mut [Vec<f64>]) -> Vec<f64> {
    let inner = w.conv_bias.dims()[0];
    let rank = w.dt_weight.dims()[1];
    let p = times(&matrix(&w.in_proj), x);
    let kernel = cube(&w.conv_weight);
    let (bias, a_log, d) = (vector(&w.conv_bias), matrix(&w.a_log), vector(&w.d));
    let mut u = vec![];
    for c in 0..inner {
        taps[c].remove(0);
        taps[c].push(p[c]);
        let s: f64 = (0..4).map(|k| taps[c][k] * kernel[c][0][k]).sum();
        u.push(silu(s + bias[c]));
    }
    let dbl = times(&matrix(&w.x_proj), &u);
    let dt_bias = vector(&w.dt_bias);
    let raw = times(&matrix(&w.dt_weight), &dbl[..rank]);
    let mut g = vec![];
    for c in 0..inner {
        let delta = ((raw[c] + dt_bias[c]).exp() + 1.0).ln();
        let mut y = 0.0;
        for n in 0..16 {
            let a = -a_log[c][n].exp();
            h[c][n] = (delta * a).exp() * h[c][n] + delta * dbl[rank + n] * u[c];
            y += h[c][n] * dbl[rank + 16 + n];
        }
        g.push((y + d[c] * u[c]) * silu(p[inner + c]));
    }
    times(&matrix(&w.out_proj), &g)
}

fn close(a: f64, b: f64, eps: f64) {
    assert!((a - b).abs() <= eps * (1.0 + b.abs()), "{a} and {b}");
}

fn close_to(t: &Tensor, expected: &[f64], eps: f64) {
    let found: Vec<f64> = t.to_dtype(DType::F64).unwrap().flatten_all().unwrap().to_vec1().unwrap();
    assert_eq!(found.len(), expected.len());
    for (a, b) in found.iter().zip(expected) {
        close(*a, *b, eps);
    }
}

fn flat(m: &[Vec<f64>]) -> Vec<f64> {
    m.iter().flatten().copied().collect()
}

fn row_of(t: &Tensor, i: usize) -> Tensor {
    t.narrow(0, i, 1).unwrap().squeeze(0).unwrap()
}

#[test]
fn sequence_follows_the_formulas() {
    for (dt, eps) in [(DType::F64, 1e-9), (DType::F32, 1e-4), (DType::F16, 3e-1)] {
        for len in [1, 2, 3, 4, 5, 9] {
            let w = weights(3, 7, dt);
            let block = MambaBlock::from_weights(&config(3), w.clone());
            let xs = Numbers(len as u64).tensor(&[2, len, 3], dt);
            assert!(block.takes_sequence(&xs));
            let (out, h, taps) = block.forward_sequence(&xs).unwrap();
            assert_eq!(out.dims(), &[2, len, 3]);
            assert_eq!(h.dims(), &[2, 6, 16]);
            assert_eq!(taps.dims(), &[2, 6, 4]);
            assert_eq!(out.dtype(), dt);
            for (i, item) in cube(&xs).iter().enumerate() {
                let mut hs = vec![vec![0.0; 16]; 6];
                let mut ts = vec![vec![0.0; 4]; 6];
                let outs: Vec<Vec<f64>> =
                    item.iter().map(|x| step(&w, x, &mut hs, &mut ts)).collect();
                close_to(&row_of(&out, i), &flat(&outs), eps);
                close_to(&row_of(&h, i), &flat(&hs), eps);
                close_to(&row_of(&taps, i), &flat(&ts), eps);
            }
        }
    }
}

#[test]
fn step_follows_the_formulas() {
    let w = weights(3, 11, DType::F64);
    let block = MambaBlock::from_weights(&config(3), w.clone());
    let mut r = Numbers(5);
    let x = r.tensor(&[2, 3], DType::F64);
    let h = r.tensor(&[2, 6, 16], DType::F64);
    let taps = r.tensor(&[2, 6, 4], DType::F64);
    assert!(block.takes_step(&x, &taps));
    let (out, h1, taps1) = block.forward_step(&x, &h, &taps).unwrap();
    for i in 0..2 {
        let mut hs = matrix(&row_of(&h, i));
        let mut ts = matrix(&row_of(&taps, i));
        let y = step(&w, &vector(&row_of(&x, i)), &mut hs, &mut ts);
        close_to(&row_of(&out, i), &y, 1e-9);
        close_to(&row_of(&h1, i), &flat(&hs), 1e-9);
        close_to(&row_of(&taps1, i), &flat(&ts), 1e-9);
    }
}

#[test]
fn sequence_and_steps_agree() {
    let block = MambaBlock::from_weights(&config(2), weights(2, 3, DType::F64));
    let xs = Numbers(9).tensor(&[3, 7, 2], DType::F64);
    let (out, h, taps) = block.forward_sequence(&xs).unwrap();
    let (mut hs, mut ts) = (
        Tensor::zeros((3, 4, 16), DType::F64, &Device::Cpu).unwrap(),
        Tensor::zeros((3, 4, 4), DType::F64, &Device::Cpu).unwrap(),
    );
    for t in 0..7 {
        let x = xs.narrow(1, t, 1).unwrap().squeeze(1).unwrap();
        let (y, h1, t1) = block.forward_step(&x, &hs, &ts).unwrap();
        let expected: Vec<f64> = flat(&matrix(&out.narrow(1, t, 1).unwrap().squeeze(1).unwrap()));
        close_to(&y, &expected, 1e-9);
        hs = h1;
        ts = t1;
    }
    close_to(&hs, &flat(&matrix(&h.flatten(0, 1).unwrap())), 1e-9);
    close_to(&ts, &flat(&matrix(&taps.flatten(0, 1).unwrap())), 1e-9);
}

/// A block for which the formulas can be worked out by hand.
fn plain_weights() -> Weights {
    let t = |v: Vec<f64>, s: &[usize]| Tensor::from_vec(v, s, &Device::Cpu).unwrap();
    let zeros = |s: &[usize]| Tensor::zeros(s, DType::F64, &Device::Cpu).unwrap();
    Weights {
        in_proj: t(vec![1.0, 0.0, 2.0, 0.0], &[4, 1]),
        conv_weight: t(vec![0.0, 0.0, 0.5, 1.0, 0.0, 0.0, 0.0, 0.0], &[2, 1, 4]),
        conv_bias: zeros(&[2]),
        x_proj: zeros(&[33, 2]),
        dt_weight: zeros(&[2, 1]),
        dt_bias: zeros(&[2]),
        a_log: zeros(&[2, 16]),
        d: t(vec![3.0, 1.0], &[2]),
        out_proj: t(vec![10.0, 1.0], &[1, 2]),
    }
}

#[test]
fn values_worked_out_by_hand() {
    let block = MambaBlock::from_weights(&config(1), plain_weights());
    let xs = Tensor::from_vec(vec![1.0f64, 2.0], (1, 2, 1), &Device::Cpu).unwrap();
    let (out, h, taps) = block.forward_sequence(&xs).unwrap();
    // 10 * (3 * silu(1)) * silu(2), then 10 * (3 * silu(2 + 0.5 * 1)) * silu(4)
    let silu1 = 0.731_058_578_630_004_9;
    let silu2 = 1.761_594_155_955_764_9;
    let silu25 = 2.3103545499468914;
    let silu4 = 3.928055160151634;
    close_to(&out, &[30.0 * silu1 * silu2, 30.0 * silu25 * silu4], 1e-12);
    assert!(h.flatten_all().unwrap().to_vec1::<f64>().unwrap().iter().all(|x| *x == 0.0));
    assert_eq!(taps.to_vec3::<f64>().unwrap(), vec![vec![
        vec![0.0, 0.0, 1.0, 2.0],
        vec![0.0, 0.0, 0.0, 0.0],
    ]]);
}

#[test]
fn state_worked_out_by_hand() {
    let mut w = plain_weights();
    // The first input enters the first state with the factor 1, and is read with the factor 2.
    let mut v = vec![0.0f64; 66];
    v[2] = 1.0;
    v[2 * 17] = 2.0;
    w.x_proj = Tensor::from_vec(v, (33, 2), &Device::Cpu).unwrap();
    let block = MambaBlock::from_weights(&config(1), w);
    let x = Tensor::from_vec(vec![1.0f64], (1, 1), &Device::Cpu).unwrap();
    let mut h = vec![0.0f64; 32];
    h[0] = 4.0;
    let h = Tensor::from_vec(h, (1, 2, 16), &Device::Cpu).unwrap();
    let taps = Tensor::zeros((1, 2, 4), DType::F64, &Device::Cpu).unwrap();
    let (out, h1, _) = block.forward_step(&x, &h, &taps).unwrap();
    let silu1 = 0.731_058_578_630_004_9;
    let silu2 = 1.761_594_155_955_764_9;
    let ln2 = 0.693_147_180_559_945_3;
    // exp(ln 2 * -exp(0)) = 1 / 2
    let state = 0.5 * 4.0 + ln2 * silu1 * silu1;
    close(h1.to_vec3::<f64>().unwrap()[0][0][0], state, 1e-12);
    close_to(&out, &[10.0 * (state * (2.0 * silu1) + 3.0 * silu1) * silu2], 1e-12);
}

#[test]
fn state_given_once_counts_for_every_item() {
    let block = MambaBlock::from_weights(&config(2), weights(2, 3, DType::F64));
    let mut r = Numbers(1);
    let x = r.tensor(&[2, 2], DType::F64);
    let taps = r.tensor(&[2, 4, 4], DType::F64);
    let h = r.tensor(&[1, 4, 16], DType::F64);
    let twice = Tensor::cat(&[&h, &h], 0).unwrap();
    let (a, _, _) = block.forward_step(&x, &h, &taps).unwrap();
    let (b, _, _) = block.forward_step(&x, &twice, &taps).unwrap();
    assert_eq!(a.to_vec2::<f64>().unwrap(), b.to_vec2::<f64>().unwrap());
    assert!(block.forward_step(&row_of(&x, 0).unsqueeze(0).unwrap(), &twice, &taps).is_err());
}

#[test]
fn longer_history_is_cut() {
    let block = MambaBlock::from_weights(&config(2), weights(2, 3, DType::F64));
    let mut r = Numbers(1);
    let x = r.tensor(&[1, 2], DType::F64);
    let h = r.tensor(&[1, 4, 16], DType::F64);
    let taps = r.tensor(&[1, 4, 6], DType::F64);
    let (_, _, new) = block.forward_step(&x, &h, &taps).unwrap();
    let old = taps.to_vec3::<f64>().unwrap();
    let new = new.to_vec3::<f64>().unwrap();
    for c in 0..4 {
        assert_eq!(new[0][c][..3], old[0][c][1..4]);
        assert_eq!(new[0][c].len(), 4);
    }
}

#[test]
fn empty_batches() {
    let block = MambaBlock::from_weights(&config(2), weights(2, 3, DType::F32));
    let zeros = |s: &[usize]| Tensor::zeros(s, DType::F32, &Device::Cpu).unwrap();
    let (out, h, taps) =
        block.forward_step(&zeros(&[0, 2]), &zeros(&[0, 4, 16]), &zeros(&[0, 4, 4])).unwrap();
    assert_eq!(out.dims(), &[0, 2]);
    assert_eq!(h.dims(), &[0, 4, 16]);
    assert_eq!(taps.dims(), &[0, 4, 4]);
    assert!(block.forward_sequence(&zeros(&[0, 3, 2])).is_err());
    assert!(block.forward_sequence(&zeros(&[1, 0, 2])).is_err());
}

/// A view of no rows of `width` numbers that begins behind the end of its storage.
fn lost(width: usize) -> Tensor {
    let t = Tensor::zeros((2, 2 * width), DType::F32, &Device::Cpu).unwrap();
    t.narrow(0, 2, 0).unwrap().narrow(1, width, width).unwrap()
}

#[test]
fn empty_views_behind_the_end() {
    let block = MambaBlock::from_weights(&config(3), weights(3, 3, DType::F32));
    let z = |s: &[usize]| Tensor::zeros(s, DType::F32, &Device::Cpu).unwrap();
    let (x, h) = (lost(3), z(&[0, 6, 16]));
    assert_eq!(x.dims(), &[0, 3]);
    assert!(x.is_contiguous());
    // Histories in row-major order, and in none.
    let straight = lost(24).reshape((0, 6, 4)).unwrap();
    let spread = lost(3).reshape((0, 1, 1)).unwrap().broadcast_as((0, 6, 4)).unwrap();
    let layer = ResidualBlock::from_parts(z(&[3]), block.clone());
    for taps in [straight, spread, z(&[0, 6, 4])] {
        let (out, h1, taps1) = block.forward_step(&x, &h, &taps).unwrap();
        assert_eq!(out.dims(), &[0, 3]);
        assert_eq!(h1.dims(), &[0, 6, 16]);
        assert_eq!(taps1.dims(), &[0, 6, 4]);
        let (out, h1, taps1) = layer.forward_step(&x, &h, &taps).unwrap();
        assert_eq!(out.dims(), &[0, 3]);
        assert_eq!(h1.dims(), &[0, 6, 16]);
        assert_eq!(taps1.dims(), &[0, 6, 4]);
    }
    let xs = x.reshape((1, 0, 3)).unwrap();
    assert!(block.forward_sequence(&xs).is_err());
    assert!(layer.forward_sequence(&xs).is_err());
}

#[test]
fn empty_batches_of_other_histories_are_errors() {
    let block = MambaBlock::from_weights(&config(2), weights(2, 3, DType::F32));
    let z = |s: &[usize]| Tensor::zeros(s, DType::F32, &Device::Cpu).unwrap();
    let layer = ResidualBlock::from_parts(z(&[2]), block.clone());
    let (x, h) = (z(&[0, 2]), z(&[0, 4, 16]));
    for taps in [z(&[1, 4, 4]), z(&[0, 5, 4]), z(&[0, 4, 3]), z(&[0, 4])] {
        assert!(block.forward_step(&x, &h, &taps).is_err());
        assert!(layer.forward_step(&x, &h, &taps).is_err());
    }
    assert!(block.forward_step(&x, &z(&[0, 5, 16]), &z(&[0, 4, 4])).is_err());
}

#[test]
fn empty_batches_of_small_numbers() {
    let block = MambaBlock::from_weights(&config(2), weights(2, 3, DType::F32));
    let z = |s: &[usize]| Tensor::zeros(s, DType::F8E4M3, &Device::Cpu).unwrap();
    let (x, taps) = (z(&[0, 2]), z(&[0, 4, 4]));
    assert!(block.takes_step(&x, &taps));
    let (out, _, _) = block.forward_step(&x, &z(&[0, 4, 16]), &taps).unwrap();
    assert_eq!(out.dims(), &[0, 2]);
    assert_eq!(out.dtype(), DType::F8E4M3);
    assert!(block.forward_step(&z(&[1, 2]), &z(&[1, 4, 16]), &z(&[1, 4, 4])).is_err());
}

#[test]
fn empty_batches_do_not_compare_types() {
    let z = |s: &[usize], dt: DType| Tensor::zeros(s, dt, &Device::Cpu).unwrap();
    let block = MambaBlock::from_weights(&config(2), weights(2, 3, DType::F64));
    let (x, taps) = (z(&[0, 2], DType::F32), z(&[0, 4, 4], DType::F32));
    for dt in [DType::F16, DType::F64, DType::U32] {
        let (out, h, t) = block.forward_step(&x, &z(&[0, 4, 16], dt), &taps).unwrap();
        assert_eq!((out.dims(), out.dtype()), (&[0, 2][..], DType::F32));
        assert_eq!((h.dims(), h.dtype()), (&[0, 4, 16][..], DType::F32));
        assert_eq!((t.dims(), t.dtype()), (&[0, 4, 4][..], DType::F32));
    }
    // The history is joined with the input, which has to be of its type.
    assert!(block.forward_step(&x, &z(&[0, 4, 16], DType::F32), &z(&[0, 4, 4], DType::F64)).is_err());
    // Tokens of another width.
    let wide = z(&[0, 7], DType::F32);
    assert_eq!(block.forward_step(&wide, &z(&[0, 4, 16], DType::F32), &taps).unwrap().0.dims(), &[0, 2]);
    let layer = ResidualBlock::from_parts(z(&[2], DType::F32), block);
    assert!(layer.forward_step(&wide, &z(&[0, 4, 16], DType::F32), &taps).is_err());
    let (out, h, _) = layer.forward_step(&x, &z(&[0, 4, 16], DType::F64), &taps).unwrap();
    assert_eq!((out.dims(), out.dtype()), (&[0, 2][..], DType::F32));
    assert_eq!((h.dims(), h.dtype()), (&[0, 4, 16][..], DType::F32));
}

#[test]
fn tokens_of_no_numbers() {
    let mut w = weights(2, 3, DType::F64);
    w.in_proj = w.in_proj.to_dtype(DType::F32).unwrap();
    let z = |s: &[usize], dt: DType| Tensor::zeros(s, dt, &Device::Cpu).unwrap();
    // The type of the input projection does not count, those of the others do.
    let block = MambaBlock::from_weights(&config(2), w.clone());
    let (out, h, _) = block.forward_sequence(&z(&[1, 3, 0], DType::F64)).unwrap();
    assert_eq!(out.dims(), &[1, 3, 2]);
    assert_eq!(h.dims(), &[1, 4, 16]);
    assert!(block.forward_sequence(&z(&[1, 3, 2], DType::F64)).is_err());
    assert!(block.forward_sequence(&z(&[1, 3, 0], DType::F32)).is_err());
    let (out, _, _) = block
        .forward_step(
            &z(&[1, 0], DType::F64),
            &z(&[1, 4, 16], DType::F64),
            &z(&[1, 4, 4], DType::F64),
        )
        .unwrap();
    assert_eq!(out.dims(), &[1, 2]);
    w.out_proj = w.out_proj.to_dtype(DType::F32).unwrap();
    let block = MambaBlock::from_weights(&config(2), w);
    assert!(block.forward_sequence(&z(&[1, 3, 0], DType::F64)).is_err());
}

#[test]
fn a_step_goes_where_a_pass_went() {
    let block = MambaBlock::from_weights(&config(3), weights(3, 8, DType::F32));
    let layer = ResidualBlock::from_parts(Numbers(2).tensor(&[3], DType::F32), block.clone());
    let xs = Numbers(6).tensor(&[2, 4, 3], DType::F32);
    let x = Numbers(7).tensor(&[2, 3], DType::F32);
    let (_, h, taps) = block.forward_sequence(&xs).unwrap();
    let (_, h, taps) = block.forward_step(&x, &h, &taps).unwrap();
    assert!(block.forward_step(&x, &h, &taps).is_ok());
    let (_, h, taps) = layer.forward_sequence(&xs).unwrap();
    let (_, h, taps) = layer.forward_step(&x, &h, &taps).unwrap();
    assert!(layer.forward_step(&x, &h, &taps).is_ok());
}

#[test]
fn oldest_input_is_forgotten() {
    let block = MambaBlock::from_weights(&config(2), weights(2, 3, DType::F64));
    let mut r = Numbers(1);
    let (x, h) = (r.tensor(&[2, 2], DType::F64), r.tensor(&[2, 4, 16], DType::F64));
    let taps = r.tensor(&[2, 4, 4], DType::F64);
    let other = Tensor::cat(
        &[&r.tensor(&[2, 4, 1], DType::F64), &taps.narrow(2, 1, 3).unwrap()],
        2,
    )
    .unwrap();
    let (a, ha, ta) = block.forward_step(&x, &h, &taps).unwrap();
    let (b, hb, tb) = block.forward_step(&x, &h, &other).unwrap();
    assert_eq!(matrix(&a), matrix(&b));
    assert_eq!(cube(&ha), cube(&hb));
    assert_eq!(cube(&ta), cube(&tb));
}

#[test]
fn old_states_decay() {
    let block = MambaBlock::from_weights(&config(2), weights(2, 3, DType::F64));
    let mut r = Numbers(1);
    let (x, taps) = (r.tensor(&[1, 2], DType::F64), r.tensor(&[1, 4, 4], DType::F64));
    let state = |k: f64| Tensor::full(k, (1, 4, 16), &Device::Cpu).unwrap();
    let after = |k: f64| cube(&block.forward_step(&x, &state(k), &taps).unwrap().1);
    let (zero, one, five) = (after(0.0), after(1.0), after(5.0));
    for c in 0..4 {
        for n in 0..16 {
            let f = one[0][c][n] - zero[0][c][n];
            assert!(0.0 < f && f < 1.0);
            close(five[0][c][n] - zero[0][c][n], 5.0 * f, 1e-12);
        }
    }
}

#[test]
fn later_tokens_change_nothing_before_them() {
    let block = MambaBlock::from_weights(&config(3), weights(3, 3, DType::F64));
    let (a, b) = (Numbers(4).tensor(&[2, 6, 3], DType::F64), Numbers(5).tensor(&[2, 6, 3], DType::F64));
    // The first item of the second batch begins as that of the first does.
    let mixed = Tensor::cat(
        &[&a.narrow(1, 0, 4).unwrap(), &b.narrow(1, 4, 2).unwrap()],
        1,
    )
    .unwrap();
    let mixed = Tensor::cat(&[&mixed.narrow(0, 0, 1).unwrap(), &b.narrow(0, 1, 1).unwrap()], 0).unwrap();
    let x = cube(&block.forward_sequence(&a).unwrap().0);
    let y = cube(&block.forward_sequence(&mixed).unwrap().0);
    for t in 0..4 {
        for k in 0..3 {
            close(x[0][t][k], y[0][t][k], 1e-12);
        }
    }
    assert_ne!(x[0][4], y[0][4]);
}

#[test]
fn layer_adds_the_tokens_to_its_block() {
    let block = MambaBlock::from_weights(&config(3), weights(3, 8, DType::F32));
    let norm = Numbers(2).tensor(&[3], DType::F32);
    let layer = ResidualBlock::from_parts(norm.clone(), block.clone());
    let xs = Numbers(6).tensor(&[2, 4, 3], DType::F32);
    let normed = candle_nn::ops::rms_norm(&xs, &norm, 1e-5).unwrap();
    let (out, h, taps) = layer.forward_sequence(&xs).unwrap();
    let (o, g, s) = block.forward_sequence(&normed).unwrap();
    let expected = o.add(&xs).unwrap();
    for (a, b) in [(out, expected), (h, g), (taps, s)] {
        close_to(&a, &b.flatten_all().unwrap().to_dtype(DType::F64).unwrap().to_vec1().unwrap(), 1e-6);
    }
}

#[test]
fn sequence_in_any_layout() {
    let block = MambaBlock::from_weights(&config(3), weights(3, 3, DType::F64));
    let xs = Numbers(4).tensor(&[2, 5, 3], DType::F64);
    let turned = xs.transpose(1, 2).unwrap().contiguous().unwrap().transpose(1, 2).unwrap();
    assert!(!turned.is_contiguous());
    let (a, _, _) = block.forward_sequence(&xs).unwrap();
    let (b, _, _) = block.forward_sequence(&turned).unwrap();
    assert_eq!(a.to_vec3::<f64>().unwrap(), b.to_vec3::<f64>().unwrap());
}

#[test]
fn kernel_in_any_layout() {
    let w = weights(3, 3, DType::F64);
    let mut turned = w.clone();
    turned.conv_weight =
        w.conv_weight.transpose(0, 2).unwrap().contiguous().unwrap().transpose(0, 2).unwrap();
    assert!(!turned.conv_weight.is_contiguous());
    let xs = Numbers(4).tensor(&[2, 5, 3], DType::F64);
    let (a, _, _) = MambaBlock::from_weights(&config(3), w).forward_sequence(&xs).unwrap();
    let (b, _, _) =
        MambaBlock::from_weights(&config(3), turned).forward_sequence(&xs).unwrap();
    assert_eq!(a.to_vec3::<f64>().unwrap(), b.to_vec3::<f64>().unwrap());
}

#[test]
fn other_types_are_converted() {
    let mut w = weights(2, 3, DType::F64);
    w.a_log = w.a_log.to_dtype(DType::F32).unwrap();
    let x = Numbers(1).tensor(&[1, 2], DType::F64);
    let zeros = |s: &[usize]| Tensor::zeros(s, DType::F64, &Device::Cpu).unwrap();
    let xs = x.unsqueeze(1).unwrap();
    let block = MambaBlock::from_weights(&config(2), w.clone());
    let (a, _, _) = block.forward_sequence(&xs).unwrap();
    let (b, _, _) = block.forward_step(&x, &zeros(&[1, 4, 16]), &zeros(&[1, 4, 4])).unwrap();
    close_to(&a, &flat(&matrix(&b)), 1e-9);
    // The skip connection is converted for a single token only.
    w.d = w.d.to_dtype(DType::F32).unwrap();
    let block = MambaBlock::from_weights(&config(2), w);
    assert!(block.forward_sequence(&xs).is_err());
    assert!(block.forward_step(&x, &zeros(&[1, 4, 16]), &zeros(&[1, 4, 4])).is_ok());
}

#[test]
fn inputs_of_other_shapes_are_errors() {
    let block = MambaBlock::from_weights(&config(2), weights(2, 3, DType::F32));
    let z = |s: &[usize]| Tensor::zeros(s, DType::F32, &Device::Cpu).unwrap();
    let (h, taps) = (z(&[1, 4, 16]), z(&[1, 4, 4]));
    assert!(matches!(block.forward_sequence(&z(&[1, 2])), Err(MambaError::Candle(_))));
    assert!(block.forward_sequence(&z(&[1, 2, 3])).is_err());
    assert!(block.forward_step(&z(&[1, 1, 2]), &h, &taps).is_err());
    assert!(block.forward_step(&z(&[1, 3]), &h, &taps).is_err());
    assert!(block.forward_step(&z(&[1, 2]), &z(&[1, 4, 15]), &taps).is_err());
    assert!(block.forward_step(&z(&[1, 2]), &h, &z(&[1, 4, 3])).is_err());
    assert!(block.forward_step(&z(&[1, 2]), &h, &z(&[2, 4, 4])).is_err());
    assert!(block.forward_step(&z(&[1, 2]), &h, &z(&[4, 4])).is_err());
    let wide = Tensor::zeros((1, 2, 2), DType::F64, &Device::Cpu).unwrap();
    assert!(block.forward_sequence(&wide).is_err());
}

#[test]
fn weights_of_other_shapes_are_kept() {
    let z = |s: &[usize]| Tensor::zeros(s, DType::F32, &Device::Cpu).unwrap();
    let bad = z(&[1, 1]);
    for k in 0..9 {
        let mut w = weights(2, 3, DType::F32);
        let slot = match k {
            0 => &mut w.in_proj,
            1 => &mut w.conv_weight,
            2 => &mut w.conv_bias,
            3 => &mut w.x_proj,
            4 => &mut w.dt_weight,
            5 => &mut w.dt_bias,
            6 => &mut w.a_log,
            7 => &mut w.d,
            _ => &mut w.out_proj,
        };
        *slot = bad.clone();
        let block = MambaBlock::from_weights(&config(2), w);
        assert!(!block.has_shapes());
        assert!(!block.takes_sequence(&z(&[1, 1, 2])));
        assert!(!block.takes_step(&z(&[1, 2]), &z(&[1, 4, 4])));
        // Inputs of other dimensions come to an error first.
        assert!(block.takes_sequence(&z(&[1, 2])));
        assert!(block.forward_sequence(&z(&[1, 2])).is_err());
        assert!(block.forward_step(&z(&[1, 1, 2]), &z(&[1, 4, 16]), &z(&[1, 4, 4])).is_err());
        let layer = ResidualBlock::from_parts(z(&[2]), block);
        assert!(!layer.takes_sequence(&z(&[1, 1, 2])));
    }
    let block = MambaBlock::from_weights(&config(2), weights(2, 3, DType::F32));
    assert!(block.has_shapes());
    assert_eq!(block.d_model(), 2);
    assert_eq!(block.d_inner(), 4);
    let layer = ResidualBlock::from_parts(bad, block.clone());
    assert!(!layer.has_shapes());
    assert!(!layer.takes_step(&z(&[1, 2]), &z(&[1, 4, 4])));
    assert!(layer.takes_step(&z(&[]), &z(&[1, 4, 4])));
    assert!(layer.forward_step(&z(&[]), &z(&[1, 4, 16]), &z(&[1, 4, 4])).is_err());
    assert!(ResidualBlock::from_parts(z(&[2]), block).has_shapes());
}

/// A source of weights that hands out tensors of one shape, whatever it is asked for.
struct Alike(Vec<usize>);

impl candle_nn::var_builder::SimpleBackend for Alike {
    fn get(
        &self,
        _: candle_core::Shape,
        _: &str,
        _: candle_nn::Init,
        dt: DType,
        dev: &Device,
    ) -> candle_core::Result<Tensor> {
        Tensor::zeros(self.0.as_slice(), dt, dev)
    }

    fn get_unchecked(&self, _: &str, dt: DType, dev: &Device) -> candle_core::Result<Tensor> {
        Tensor::zeros(self.0.as_slice(), dt, dev)
    }

    fn contains_tensor(&self, _: &str) -> bool {
        true
    }
}

#[test]
fn sources_of_other_shapes_are_taken() {
    let source = || {
        let all = Box::new(Alike(vec![2]));
        VarBuilder(candle_nn::VarBuilder::from_backend(all, DType::F32, Device::Cpu))
    };
    let block = MambaBlock::new(&config(2), source()).unwrap();
    assert!(!block.has_shapes());
    assert_eq!(block.d_inner(), 4);
    let layer = ResidualBlock::new(&config(2), source()).unwrap();
    assert!(!layer.has_shapes());
    let model = Model::new(&config(2), source()).unwrap();
    assert!(!model.has_shapes());
    let prompt = Tensor::zeros((1, 1), DType::U32, &Device::Cpu).unwrap();
    assert!(!model.takes_all(&prompt));
    assert!(!model.takes_prompt(&prompt));
    assert!(model.forward_all(&prompt.squeeze(0).unwrap()).is_err());
}

fn stored(w: &Weights, prefix: &str, map: &mut HashMap<String, Tensor>) {
    for (name, t) in [
        ("in_proj.weight", &w.in_proj),
        ("conv1d.weight", &w.conv_weight),
        ("conv1d.bias", &w.conv_bias),
        ("x_proj.weight", &w.x_proj),
        ("dt_proj.weight", &w.dt_weight),
        ("dt_proj.bias", &w.dt_bias),
        ("A_log", &w.a_log),
        ("D", &w.d),
        ("out_proj.weight", &w.out_proj),
    ] {
        map.insert(format!("{prefix}{name}"), t.clone());
    }
}

#[test]
fn block_is_loaded_by_name() {
    let w = weights(3, 3, DType::F32);
    let mut map = HashMap::new();
    stored(&w, "a.b.", &mut map);
    let load = |map: &HashMap<String, Tensor>| {
        let vb = candle_nn::VarBuilder::from_tensors(map.clone(), DType::F32, &Device::Cpu);
        MambaBlock::new(&config(3), VarBuilder(vb.pp("a").pp("b")))
    };
    let xs = Numbers(4).tensor(&[2, 5, 3], DType::F32);
    let (a, _, _) = MambaBlock::from_weights(&config(3), w).forward_sequence(&xs).unwrap();
    let (b, _, _) = load(&map).unwrap().forward_sequence(&xs).unwrap();
    assert_eq!(a.to_vec3::<f32>().unwrap(), b.to_vec3::<f32>().unwrap());
    for name in map.clone().keys() {
        let mut less = map.clone();
        less.remove(name);
        assert!(load(&less).is_err());
    }
}

#[test]
fn residual_follows_the_formulas() {
    let w = weights(3, 8, DType::F32);
    let norm = Numbers(2).tensor(&[3], DType::F32);
    let mut map = HashMap::new();
    stored(&w, "mixer.", &mut map);
    map.insert("norm.weight".to_string(), norm.clone());
    let vb = candle_nn::VarBuilder::from_tensors(map, DType::F32, &Device::Cpu);
    let layer = ResidualBlock::new(&config(3), VarBuilder(vb)).unwrap();
    let xs = Numbers(6).tensor(&[1, 5, 3], DType::F32);
    assert!(layer.takes_sequence(&xs));
    let (out, h, taps) = layer.forward_sequence(&xs).unwrap();
    let factors = vector(&norm);
    let mut hs = vec![vec![0.0; 16]; 6];
    let mut ts = vec![vec![0.0; 4]; 6];
    let mut expected = vec![];
    for x in &cube(&xs)[0] {
        let mean: f64 = x.iter().map(|v| v * v).sum::<f64>() / 3.0;
        let root = (mean + 1e-5).sqrt();
        let n: Vec<f64> = x.iter().zip(&factors).map(|(v, f)| v / root * f).collect();
        let y = step(&w, &n, &mut hs, &mut ts);
        expected.extend(y.iter().zip(x).map(|(a, b)| a + b));
    }
    close_to(&out, &expected, 1e-4);
    close_to(&h, &flat(&hs), 1e-4);
    close_to(&taps, &flat(&ts), 1e-4);

    let z = |s: &[usize]| Tensor::zeros(s, DType::F32, &Device::Cpu).unwrap();
    let first = xs.narrow(1, 0, 1).unwrap().squeeze(1).unwrap();
    assert!(layer.takes_step(&first, &z(&[1, 6, 4])));
    let (y, _, _) = layer.forward_step(&first, &z(&[1, 6, 16]), &z(&[1, 6, 4])).unwrap();
    close_to(&y, &expected[..3], 1e-4);
    let copy = layer.clone();
    let (z2, _, _) = copy.forward_step(&first, &z(&[1, 6, 16]), &z(&[1, 6, 4])).unwrap();
    assert_eq!(y.to_vec2::<f32>().unwrap(), z2.to_vec2::<f32>().unwrap());
}

#[test]
fn residual_refuses_other_inputs() {
    let block = MambaBlock::from_weights(&config(2), weights(2, 3, DType::F32));
    let z = |s: &[usize]| Tensor::zeros(s, DType::F32, &Device::Cpu).unwrap();
    let layer = ResidualBlock::from_parts(z(&[2]), block);
    assert!(layer.takes_sequence(&z(&[1, 2])));
    assert!(layer.forward_sequence(&z(&[1, 2])).is_err());
    assert!(layer.forward_sequence(&z(&[1, 2, 3])).is_err());
    assert!(layer.takes_sequence(&z(&[])));
    assert!(layer.forward_sequence(&z(&[])).is_err());
    // Tokens of no numbers.
    assert!(layer.takes_sequence(&z(&[1, 2, 0])));
    assert!(layer.forward_sequence(&z(&[1, 2, 0])).is_err());
    let (h, taps) = (z(&[1, 4, 16]), z(&[1, 4, 4]));
    assert!(layer.takes_step(&z(&[1, 0]), &taps));
    assert!(layer.forward_step(&z(&[1, 0]), &h, &taps).is_err());
    let wide = Tensor::zeros((1, 2, 2), DType::F64, &Device::Cpu).unwrap();
    assert!(layer.forward_sequence(&wide).is_err());
    let ids = Tensor::zeros((3, 2, 2), DType::U32, &Device::Cpu).unwrap();
    assert!(layer.takes_sequence(&ids));
    assert!(layer.forward_sequence(&ids).is_err());
    assert!(!layer.takes_sequence(&ids.transpose(0, 1).unwrap()));
}

#[test]
fn room_of_a_block() {
    let block = MambaBlock::from_weights(&config(2), weights(2, 3, DType::F32));
    let z = |s: &[usize]| Tensor::zeros(s, DType::F32, &Device::Cpu).unwrap();
    assert!(block.takes_sequence(&z(&[1, 2])));
    assert!(block.takes_sequence(&z(&[1, 0, 2])));
    // Whole numbers.
    for shape in [[1, 0, 2], [0, 1, 2], [1, 1, 0], [1, 1, 2]] {
        let whole = Tensor::zeros(&shape, DType::U8, &Device::Cpu).unwrap();
        assert!(block.takes_sequence(&whole));
        assert!(block.forward_sequence(&whole).is_err());
    }
    let huge = z(&[1, 1, 1]).broadcast_as((1usize << 45, 1 << 12, 2)).unwrap();
    assert!(!block.takes_sequence(&huge));
    assert!(!block.takes_step(&z(&[1, 2]), &z(&[1]).broadcast_as(1usize << 61).unwrap()));
    assert!(!block.takes_step(&z(&[1, 1]).broadcast_as((1usize << 58, 2)).unwrap(), &z(&[1])));
}
