use candle_core::{DType, Device, Tensor};
use mamba_prefill::scan::{selective_scan, takes_scan};
use mamba_prefill::MambaError;

/// Numbers that look random, between -1 and 1.
struct Numbers(u64);

impl Numbers {
    fn tensor(&mut self, shape: &[usize]) -> Tensor {
        let n: usize = shape.iter().product();
        let mut v: Vec<f64> = vec![];
        for _ in 0..n {
            self.0 = self.0.wrapping_mul(6364136223846793005).wrapping_add(1442695040888963407);
            v.push(((self.0 >> 11) as f64) / ((1u64 << 52) as f64) - 1.0);
        }
        Tensor::from_vec(v, shape, &Device::Cpu).unwrap()
    }
}

/// A step size, a rate, an input and an output projection, and a skip connection.
fn parameters(b: usize, l: usize, d: usize, n: usize) -> [Tensor; 5] {
    let mut r = Numbers(5);
    let delta = r.tensor(&[b, l, d]).exp().unwrap();
    let a = r.tensor(&[d, n]).exp().unwrap().neg().unwrap();
    [delta, a, r.tensor(&[b, l, n]), r.tensor(&[b, l, n]), r.tensor(&[d])]
}

fn flat(t: &Tensor) -> Vec<f64> {
    t.flatten_all().unwrap().to_vec1().unwrap()
}

fn close(a: &[f64], b: &[f64]) {
    assert_eq!(a.len(), b.len());
    for (x, y) in a.iter().zip(b) {
        assert!((x - y).abs() < 1e-12, "{x} and {y}");
    }
}

#[test]
fn scan_worked_out_by_hand() {
    let t = |v: Vec<f64>, s: &[usize]| Tensor::from_vec(v, s, &Device::Cpu).unwrap();
    let half = -(2f64.ln());
    let (y, h) = selective_scan(
        &t(vec![1.0, 3.0], &[1, 2, 1]),
        &t(vec![1.0, 2.0], &[1, 2, 1]),
        &t(vec![half, 0.0], &[1, 2]),
        &t(vec![1.0, 2.0, 0.5, 1.0], &[1, 2, 2]),
        &t(vec![10.0, 1.0, 1.0, 10.0], &[1, 2, 2]),
        &t(vec![100.0], &[1]),
    )
    .unwrap();
    // States 1 and 2; then 1 / 4 + 2 * 0.5 * 3 and 2 + 2 * 1 * 3.
    close(&flat(&h), &[3.25, 8.0]);
    close(&flat(&y), &[10.0 + 2.0 + 100.0, 3.25 + 80.0 + 300.0]);
}

#[test]
fn scan_of_a_prefix_is_the_prefix_of_the_scan() {
    let [delta, a, b, c, d] = parameters(2, 5, 3, 4);
    let u = Numbers(9).tensor(&[2, 5, 3]);
    let (y, h) = selective_scan(&u, &delta, &a, &b, &c, &d).unwrap();
    let first = |t: &Tensor, k: usize| t.narrow(1, 0, k).unwrap();
    for k in 1..6 {
        let (yk, hk) = selective_scan(
            &first(&u, k),
            &first(&delta, k),
            &a,
            &first(&b, k),
            &first(&c, k),
            &d,
        )
        .unwrap();
        close(&flat(&yk), &flat(&first(&y, k)));
        if k == 5 {
            close(&flat(&hk), &flat(&h));
        }
    }
}

#[test]
fn scan_is_linear_in_its_input() {
    let [delta, a, b, c, d] = parameters(2, 4, 3, 2);
    let (u1, u2) = (Numbers(1).tensor(&[2, 4, 3]), Numbers(2).tensor(&[2, 4, 3]));
    let mix = |x: &Tensor, y: &Tensor| {
        let (x, y) = (x.affine(2.0, 0.0).unwrap(), y.affine(-3.0, 0.0).unwrap());
        x.add(&y).unwrap()
    };
    let (y1, h1) = selective_scan(&u1, &delta, &a, &b, &c, &d).unwrap();
    let (y2, h2) = selective_scan(&u2, &delta, &a, &b, &c, &d).unwrap();
    let (y3, h3) = selective_scan(&mix(&u1, &u2), &delta, &a, &b, &c, &d).unwrap();
    close(&flat(&y3), &flat(&mix(&y1, &y2)));
    close(&flat(&h3), &flat(&mix(&h1, &h2)));
}

#[test]
fn one_channel_of_many_items() {
    // Items that share how they are read out.
    let [delta, a, b, _, d] = parameters(3, 2, 1, 4);
    let c = Numbers(3).tensor(&[1, 2, 4]).broadcast_as((3, 2, 4)).unwrap();
    let u = Numbers(4).tensor(&[3, 2, 1]);
    let (y, _) = selective_scan(&u, &delta, &a, &b, &c, &d).unwrap();
    let item = |t: &Tensor, i: usize| t.narrow(0, i, 1).unwrap();
    for i in 0..3 {
        let (z, _) =
            selective_scan(&item(&u, i), &item(&delta, i), &a, &item(&b, i), &item(&c, i), &d)
                .unwrap();
        close(&flat(&z), &flat(&item(&y, i)));
    }
}

#[test]
fn scan_of_nothing() {
    let z = |s: &[usize]| Tensor::zeros(s, DType::F64, &Device::Cpu).unwrap();
    let none = |b: usize, l: usize, d: usize| {
        let (bs, a) = (z(&[b, l, 4]), z(&[d, 4]));
        assert!(takes_scan(&z(&[b, l, d]), &z(&[b, l, d]), &a, &bs, &bs, &z(&[d])));
        selective_scan(&z(&[b, l, d]), &z(&[b, l, d]), &a, &bs, &bs, &z(&[d]))
    };
    assert!(none(2, 0, 3).is_err());
    assert!(none(0, 0, 0).is_err());
    let (y, h) = none(0, 2, 3).unwrap();
    assert_eq!((y.dims(), h.dims()), (&[0, 2, 3][..], &[0, 3, 4][..]));
    let (y, h) = none(2, 2, 0).unwrap();
    assert_eq!((y.dims(), h.dims()), (&[2, 2, 0][..], &[2, 0, 4][..]));
}

#[test]
fn what_is_given_once_counts_for_all() {
    let [delta, a, b, c, d] = parameters(2, 3, 4, 5);
    let u = Numbers(4).tensor(&[2, 3, 4]);
    let full = |t: &Tensor, s: &[usize]| t.broadcast_as(s).unwrap().contiguous().unwrap();
    let same = |x: (Tensor, Tensor), y: (Tensor, Tensor)| {
        assert_eq!((x.0.dims(), x.1.dims()), (y.0.dims(), y.1.dims()));
        close(&flat(&x.0), &flat(&y.0));
        close(&flat(&x.1), &flat(&y.1));
    };
    let scan = |u: &Tensor, delta: &Tensor, b: &Tensor, c: &Tensor, d: &Tensor| {
        assert!(takes_scan(u, delta, &a, b, c, d));
        selective_scan(u, delta, &a, b, c, d).unwrap()
    };
    // Step sizes, for all items or all channels.
    for s in [[1, 3, 4], [1, 3, 1], [2, 3, 1]] {
        let once = Numbers(11).tensor(&s).exp().unwrap();
        same(scan(&u, &once, &b, &c, &d), scan(&u, &full(&once, &[2, 3, 4]), &b, &c, &d));
    }
    // Input projections, for all items or all positions.
    for s in [[1, 3, 5], [1, 1, 5], [2, 1, 5]] {
        let once = Numbers(12).tensor(&s);
        same(scan(&u, &delta, &once, &c, &d), scan(&u, &delta, &full(&once, &[2, 3, 5]), &c, &d));
    }
    // Skip connections, for all channels.
    for s in [&[][..], &[1]] {
        let once = Numbers(13).tensor(s);
        same(scan(&u, &delta, &b, &c, &once), scan(&u, &delta, &b, &c, &full(&once, &[4])));
    }
    // Later positions of what is read out do not count.
    let more = Tensor::cat(&[&c, &c], 1).unwrap();
    same(scan(&u, &delta, &b, &more, &d), scan(&u, &delta, &b, &c, &d));
    // A sequence of one position.
    let first = |t: &Tensor| t.narrow(1, 0, 1).unwrap();
    same(
        scan(&first(&u), &delta, &b, &c, &d),
        scan(&first(&u), &first(&delta), &first(&b), &first(&c), &d),
    );
    // One channel of inputs, for several of step sizes.
    let (one, rates) = (u.narrow(2, 0, 1).unwrap(), a.narrow(0, 0, 1).unwrap());
    assert!(takes_scan(&one, &delta, &rates, &b, &c, &d));
    same(
        selective_scan(&one, &delta, &rates, &b, &c, &d).unwrap(),
        selective_scan(&full(&one, &[2, 3, 4]), &delta, &full(&rates, &[4, 5]), &b, &c, &d).unwrap(),
    );
}

#[test]
fn states_of_no_numbers() {
    let mut r = Numbers(2);
    let (u, delta, d) = (r.tensor(&[2, 3, 4]), r.tensor(&[2, 3, 4]), r.tensor(&[4]));
    let none = |s: &[usize]| Tensor::zeros(s, DType::F64, &Device::Cpu).unwrap();
    let (a, b) = (none(&[4, 0]), none(&[2, 3, 0]));
    assert!(takes_scan(&u, &delta, &a, &b, &b, &d));
    let (y, h) = selective_scan(&u, &delta, &a, &b, &b, &d).unwrap();
    assert_eq!(h.dims(), &[2, 4, 0]);
    close(&flat(&y), &flat(&u.broadcast_mul(&d).unwrap()));
}

#[test]
fn scan_of_empty_whole_numbers() {
    let z = |s: &[usize], dt: DType| Tensor::zeros(s, dt, &Device::Cpu).unwrap();
    let (u, delta) = (z(&[0, 2, 3], DType::F64), z(&[0, 2, 3], DType::U32));
    let (a, b, d) = (z(&[3, 4], DType::F64), z(&[0, 2, 4], DType::F64), z(&[3], DType::F64));
    assert!(takes_scan(&u, &delta, &a, &b, &b, &d));
    let (y, h) = selective_scan(&u, &delta, &a, &b, &b, &d).unwrap();
    assert_eq!((y.dims(), y.dtype()), (&[0, 2, 3][..], DType::U32));
    assert_eq!((h.dims(), h.dtype()), (&[0, 3, 4][..], DType::U32));
    assert!(!takes_scan(
        &z(&[1, 2, 3], DType::F64),
        &z(&[1, 2, 3], DType::U32),
        &a,
        &z(&[1, 2, 4], DType::F64),
        &z(&[1, 2, 4], DType::F64),
        &d
    ));
}

#[test]
fn scans_of_other_shapes_are_errors() {
    let [delta, a, b, c, d] = parameters(2, 3, 4, 5);
    let u = Numbers(4).tensor(&[2, 3, 4]);
    assert!(selective_scan(&u, &delta, &a, &b, &c, &d).is_ok());
    let z = |s: &[usize]| Tensor::zeros(s, DType::F64, &Device::Cpu).unwrap();
    for bad in [z(&[2, 3]), z(&[4]), z(&[2, 3, 5]), z(&[2, 4, 4])] {
        assert!(takes_scan(&bad, &delta, &a, &b, &c, &d));
        assert!(selective_scan(&bad, &delta, &a, &b, &c, &d).is_err());
        assert!(selective_scan(&u, &bad, &a, &b, &c, &d).is_err());
    }
    for bad in [z(&[4]), z(&[3, 5]), z(&[4, 6])] {
        assert!(selective_scan(&u, &delta, &bad, &b, &c, &d).is_err());
    }
    assert!(matches!(
        selective_scan(&u, &delta, &z(&[3, 5]), &b, &c, &d),
        Err(MambaError::Shape)
    ));
    assert!(selective_scan(&u, &delta, &a, &z(&[2, 3, 1]), &c, &d).is_err());
    assert!(selective_scan(&u, &delta, &a, &b, &z(&[1, 3, 5]), &d).is_err());
    assert!(selective_scan(&u, &delta, &a, &b, &c, &z(&[3])).is_err());
    let half = d.to_dtype(DType::F32).unwrap();
    assert!(selective_scan(&u, &delta, &a, &b, &c, &half).is_err());
}
