use candle_core::{DType, Device, Tensor};
use mamba_prefill::{Config, MambaError, Model, State, VarBuilder};
use std::collections::HashMap;

struct Numbers(u64);

impl Numbers {
    fn next(&mut self) -> f32 {
        self.0 = self.0.wrapping_mul(6364136223846793005).wrapping_add(1442695040888963407);
        (((self.0 >> 11) as f64) / ((1u64 << 52) as f64) - 1.0) as f32
    }

    fn tensor(&mut self, shape: &[usize]) -> Tensor {
        let n: usize = shape.iter().product();
        let v: Vec<f32> = (0..n).map(|_| self.next()).collect();
        Tensor::from_vec(v, shape, &Device::Cpu).unwrap()
    }
}

fn config(n_layer: usize) -> Config {
    Config {
        d_model: 4,
        n_layer,
        vocab_size: 10,
        pad_vocab_size_multiple: 4,
    }
}

fn tensors(n_layer: usize) -> HashMap<String, Tensor> {
    let mut r = Numbers(17);
    let mut map = HashMap::new();
    map.insert("embedding.weight".to_string(), r.tensor(&[12, 4]));
    map.insert("norm_f.weight".to_string(), r.tensor(&[4]));
    for k in 0..n_layer {
        for (name, shape) in [
            ("norm.weight", vec![4]),
            ("mixer.in_proj.weight", vec![16, 4]),
            ("mixer.conv1d.weight", vec![8, 1, 4]),
            ("mixer.conv1d.bias", vec![8]),
            ("mixer.x_proj.weight", vec![33, 8]),
            ("mixer.dt_proj.weight", vec![8, 1]),
            ("mixer.dt_proj.bias", vec![8]),
            ("mixer.A_log", vec![8, 16]),
            ("mixer.D", vec![8]),
            ("mixer.out_proj.weight", vec![4, 8]),
        ] {
            map.insert(format!("layers.{k}.{name}"), r.tensor(&shape));
        }
    }
    map
}

fn load(cfg: &Config, map: HashMap<String, Tensor>, dt: DType) -> Result<Model, MambaError> {
    Model::new(cfg, VarBuilder(candle_nn::VarBuilder::from_tensors(map, dt, &Device::Cpu)))
}

fn model(n_layer: usize) -> Model {
    load(&config(n_layer), tensors(n_layer), DType::F32).unwrap()
}

fn ids(rows: &[&[u32]]) -> Tensor {
    let flat: Vec<u32> = rows.iter().flat_map(|r| r.iter().copied()).collect();
    Tensor::from_vec(flat, (rows.len(), rows[0].len()), &Device::Cpu).unwrap()
}

fn tokens(row: &[u32]) -> Tensor {
    Tensor::from_vec(row.to_vec(), row.len(), &Device::Cpu).unwrap()
}

fn same(a: &Tensor, b: &Tensor) {
    assert_eq!(a.dims(), b.dims());
    let a: Vec<f32> = a.flatten_all().unwrap().to_vec1().unwrap();
    let b: Vec<f32> = b.flatten_all().unwrap().to_vec1().unwrap();
    for (x, y) in a.iter().zip(&b) {
        assert!((x - y).abs() <= 1e-3 * (1.0 + y.abs()), "{x} and {y}");
    }
}

fn same_state(a: &State, b: &State) {
    assert_eq!(a.pos, b.pos);
    assert_eq!(a.hs.len(), b.hs.len());
    assert_eq!(a.conv_states.len(), b.conv_states.len());
    for k in 0..a.hs.len() {
        same(&a.hs[k], &b.hs[k]);
        same(&a.conv_states[k], &b.conv_states[k]);
    }
}

#[test]
fn shapes_of_a_prefill() {
    let m = model(2);
    assert_eq!(m.dtype(), DType::F32);
    let prompt = ids(&[&[1, 2, 3, 4, 5], &[9, 8, 7, 6, 5]]);
    assert!(m.takes_prompt(&prompt));
    let (logits, state) = m.forward_prefill(&prompt).unwrap();
    assert_eq!(logits.dims(), &[2, 12]);
    assert_eq!(state.pos, 5);
    assert_eq!(state.hs.len(), 2);
    assert_eq!(state.conv_states.len(), 2);
    for k in 0..2 {
        assert_eq!(state.hs[k].dims(), &[2, 8, 16]);
        assert_eq!(state.conv_states[k].dims(), &[2, 8, 4]);
    }
    assert!(m.takes_all(&prompt));
    assert_eq!(m.forward_all(&prompt).unwrap().dims(), &[2, 5, 12]);
}

#[test]
fn generating_extends_a_prefill() {
    let m = model(3);
    let text: [u32; 7] = [1, 5, 2, 11, 0, 3, 8];
    for start in 1..7 {
        let (_, mut state) = m.forward_prefill(&ids(&[&text[..start], &text[..start]])).unwrap();
        for end in start..7 {
            let next = tokens(&[text[end], text[end]]);
            assert!(m.takes_token(&next, &state));
            let logits = m.forward_generate(&next, &mut state).unwrap();
            let (expected, whole) =
                m.forward_prefill(&ids(&[&text[..end + 1], &text[..end + 1]])).unwrap();
            same(&logits, &expected);
            same_state(&state, &whole);
        }
    }
}

#[test]
fn generating_from_nothing_is_a_prefill_of_one() {
    let m = model(2);
    let mut state = State::new(1, &config(2), DType::F32, &Device::Cpu).unwrap();
    let logits = m.forward_generate(&tokens(&[7]), &mut state).unwrap();
    let (expected, whole) = m.forward_prefill(&ids(&[&[7]])).unwrap();
    same(&logits, &expected);
    same_state(&state, &whole);
}

#[test]
fn all_logits_are_those_of_the_prefixes() {
    let m = model(2);
    let text: [u32; 6] = [1, 5, 2, 11, 0, 3];
    let all = m.forward_all(&ids(&[&text])).unwrap();
    for end in 1..7 {
        let (last, _) = m.forward_prefill(&ids(&[&text[..end]])).unwrap();
        same(&all.narrow(1, end - 1, 1).unwrap().squeeze(1).unwrap(), &last);
        let short = m.forward_all(&ids(&[&text[..end]])).unwrap();
        same(&all.narrow(1, 0, end).unwrap(), &short);
    }
}

#[test]
fn items_of_a_batch_do_not_mix() {
    let m = model(2);
    let a = m.forward_all(&ids(&[&[1, 2, 3]])).unwrap();
    let b = m.forward_all(&ids(&[&[4, 4, 4]])).unwrap();
    let both = m.forward_all(&ids(&[&[1, 2, 3], &[4, 4, 4]])).unwrap();
    same(&both, &Tensor::cat(&[&a, &b], 0).unwrap());
}

/// The logits of a token, from its row of the table alone.
fn head(x: &[f32], map: &HashMap<String, Tensor>) -> Vec<f32> {
    let table: Vec<Vec<f32>> = map["embedding.weight"].to_vec2().unwrap();
    let norm: Vec<f32> = map["norm_f.weight"].to_vec1().unwrap();
    let mean: f32 = x.iter().map(|v| v * v).sum::<f32>() / x.len() as f32;
    let root = (mean + 1e-5).sqrt();
    let n: Vec<f32> = x.iter().zip(&norm).map(|(v, f)| v / root * f).collect();
    table.iter().map(|row| row.iter().zip(&n).map(|(a, b)| a * b).sum()).collect()
}

#[test]
fn without_layers_only_the_head_is_left() {
    let (m, map) = (model(0), tensors(0));
    let table: Vec<Vec<f32>> = map["embedding.weight"].to_vec2().unwrap();
    let all = m.forward_all(&ids(&[&[3, 11]])).unwrap();
    let expected = [head(&table[3], &map), head(&table[11], &map)].concat();
    same(&all, &Tensor::from_vec(expected, (1, 2, 12), &Device::Cpu).unwrap());
    let (last, state) = m.forward_prefill(&ids(&[&[3, 11], &[0, 1]])).unwrap();
    let expected = [head(&table[11], &map), head(&table[1], &map)].concat();
    same(&last, &Tensor::from_vec(expected, (2, 12), &Device::Cpu).unwrap());
    assert_eq!(state.pos, 2);
    assert!(!m.takes_prompt(&Tensor::zeros((1, 0), DType::U32, &Device::Cpu).unwrap()));
}

#[test]
fn identifier_of_no_token_is_zero() {
    let (m, map) = (model(0), tensors(0));
    let all = m.forward_all(&ids(&[&[u32::MAX]])).unwrap();
    let expected = head(&[0.0; 4], &map);
    same(&all, &Tensor::from_vec(expected, (1, 1, 12), &Device::Cpu).unwrap());
}

#[test]
fn padded_tokens_have_rows() {
    let m = model(1);
    assert!(m.forward_all(&ids(&[&[11]])).is_ok());
    assert!(matches!(m.forward_all(&ids(&[&[12]])), Err(MambaError::Candle(_))));
}

#[test]
fn identifiers_of_other_types() {
    let m = model(1);
    let wide = Tensor::from_vec(vec![3i64, 4], (1, 2), &Device::Cpu).unwrap();
    let narrow = Tensor::from_vec(vec![3u8, 4], (1, 2), &Device::Cpu).unwrap();
    let expected = m.forward_all(&ids(&[&[3, 4]])).unwrap();
    same(&m.forward_all(&wide).unwrap(), &expected);
    same(&m.forward_all(&narrow).unwrap(), &expected);
    let negative = Tensor::from_vec(vec![-3i64, 4], (1, 2), &Device::Cpu).unwrap();
    assert!(m.forward_all(&negative).is_err());
    let float = Tensor::from_vec(vec![3f32, 4.0], (1, 2), &Device::Cpu).unwrap();
    assert!(m.forward_all(&float).is_err());
}

#[test]
fn prompts_of_other_shapes_are_errors() {
    let m = model(1);
    assert!(m.takes_prompt(&tokens(&[1])));
    assert!(m.forward_prefill(&tokens(&[1])).is_err());
    assert!(m.forward_all(&tokens(&[1])).is_err());
    let empty = Tensor::zeros((1, 0), DType::U32, &Device::Cpu).unwrap();
    assert!(m.takes_prompt(&empty));
    assert!(m.forward_prefill(&empty).is_err());
    assert!(m.forward_all(&empty).is_err());
    let mut state = State::new(1, &config(1), DType::F32, &Device::Cpu).unwrap();
    assert!(m.forward_generate(&ids(&[&[1]]), &mut state).is_err());
    assert_eq!(state.pos, 0);
}

#[test]
fn states_of_other_sizes() {
    let m = model(2);
    let short = State::new(1, &config(1), DType::F32, &Device::Cpu).unwrap();
    assert!(!m.takes_token(&tokens(&[1]), &short));
    let mut long = State::new(1, &config(3), DType::F32, &Device::Cpu).unwrap();
    assert!(m.takes_token(&tokens(&[1]), &long));
    m.forward_generate(&tokens(&[1]), &mut long).unwrap();
    let rest: Vec<f32> = long.hs[2].flatten_all().unwrap().to_vec1().unwrap();
    assert!(rest.iter().all(|x| *x == 0.0));
    let mut other = State::new(2, &config(2), DType::F32, &Device::Cpu).unwrap();
    assert!(m.forward_generate(&tokens(&[1]), &mut other).is_err());
    assert_eq!(other.pos, 0);
    let mut full = State::new(1, &config(2), DType::F32, &Device::Cpu).unwrap();
    full.pos = usize::MAX;
    assert!(!m.takes_token(&tokens(&[1]), &full));
}

/// The numbers of a state.
fn contents(s: &State) -> (Vec<Vec<f32>>, usize) {
    let all = s.hs.iter().chain(&s.conv_states);
    (all.map(|t| t.flatten_all().unwrap().to_vec1().unwrap()).collect(), s.pos)
}

#[test]
fn errors_leave_the_state_of_later_layers() {
    let m = model(2);
    let (_, start) = m.forward_prefill(&ids(&[&[1, 2, 3]])).unwrap();
    let copy = || State {
        hs: start.hs.clone(),
        conv_states: start.conv_states.clone(),
        pos: start.pos,
    };
    let other = State::new(2, &config(2), DType::F32, &Device::Cpu).unwrap();
    // Identifiers that cannot be used, and a first layer that cannot go on.
    for bad in [ids(&[&[1]]), tokens(&[12]), tokens(&[1, 2])] {
        let mut state = copy();
        assert!(m.forward_generate(&bad, &mut state).is_err());
        assert_eq!(contents(&state), contents(&start));
    }
    let mut state = copy();
    state.conv_states[0] = other.conv_states[0].clone();
    let before = contents(&state);
    assert!(m.forward_generate(&tokens(&[4]), &mut state).is_err());
    assert_eq!(contents(&state), before);
    // A second layer that cannot go on: the first has.
    let mut state = copy();
    state.hs[1] = other.hs[1].clone();
    state.conv_states[1] = other.conv_states[1].clone();
    let before = contents(&state);
    assert!(m.forward_generate(&tokens(&[4]), &mut state).is_err());
    let mut whole = copy();
    m.forward_generate(&tokens(&[4]), &mut whole).unwrap();
    let (stopped, went) = (contents(&state), contents(&whole));
    assert_eq!(stopped.1, before.1);
    assert_eq!(went.1, before.1 + 1);
    assert_eq!((&stopped.0[0], &stopped.0[2]), (&went.0[0], &went.0[2]));
    assert_ne!(stopped.0[0], before.0[0]);
    assert_eq!((&stopped.0[1], &stopped.0[3]), (&before.0[1], &before.0[3]));
}

#[test]
fn tables_of_no_rows() {
    let t = Tensor::zeros((2, 8), DType::F32, &Device::Cpu).unwrap();
    let table = t.narrow(0, 2, 0).unwrap().narrow(1, 4, 4).unwrap();
    let norm = Tensor::ones(4, DType::F32, &Device::Cpu).unwrap();
    let m = Model::from_parts(table, vec![], norm, DType::F32, 4);
    let mut state = State { hs: vec![], conv_states: vec![], pos: 0 };
    let none = Tensor::zeros(0, DType::U32, &Device::Cpu).unwrap();
    assert_eq!(m.forward_generate(&none, &mut state).unwrap().dims(), &[0, 0]);
    assert_eq!(m.forward_generate(&tokens(&[u32::MAX]), &mut state).unwrap().dims(), &[1, 0]);
    assert!(m.forward_generate(&tokens(&[0]), &mut state).is_err());
    assert_eq!(state.pos, 2);
}

#[test]
fn tables_of_whole_numbers_are_errors() {
    let z = |s: &[usize]| Tensor::zeros(s, DType::I64, &Device::Cpu).unwrap();
    let m = Model::from_parts(z(&[3, 4]), vec![], z(&[4]), DType::I64, 4);
    for prompt in [ids(&[&[0, 1]]), ids(&[&[0], &[1]])] {
        assert!(m.takes_prompt(&prompt));
        assert!(m.forward_prefill(&prompt).is_err());
        assert!(m.forward_all(&prompt).is_err());
    }
    assert!(!m.takes_prompt(&ids(&[&[0, 1], &[1, 2]])));
}

#[test]
fn empty_batch_of_tokens() {
    let m = model(2);
    let mut state = State::new(0, &config(2), DType::F32, &Device::Cpu).unwrap();
    let none = Tensor::zeros(0, DType::U32, &Device::Cpu).unwrap();
    assert!(m.takes_token(&none, &state));
    assert_eq!(m.forward_generate(&none, &mut state).unwrap().dims(), &[0, 12]);
    assert_eq!(state.pos, 1);
}

#[test]
fn other_types_of_numbers() {
    let prompt = ids(&[&[1, 2, 3]]);
    let half = load(&config(1), tensors(1), DType::F16).unwrap();
    assert_eq!(half.dtype(), DType::F16);
    assert_eq!(half.forward_all(&prompt).unwrap().dtype(), DType::F16);
    assert!(load(&config(1), tensors(1), DType::F64).unwrap().forward_all(&prompt).is_err());
    assert!(load(&config(1), tensors(1), DType::BF16).unwrap().forward_all(&prompt).is_err());
}

#[test]
fn model_is_loaded_by_name() {
    let whole = tensors(11);
    assert!(load(&config(11), whole.clone(), DType::F32).is_ok());
    for name in ["embedding.weight", "norm_f.weight", "layers.0.norm.weight", "layers.10.mixer.D"] {
        let mut less = whole.clone();
        less.remove(name);
        assert!(matches!(load(&config(11), less, DType::F32), Err(MambaError::Candle(_))));
    }
}

#[test]
fn layers_come_in_order() {
    let m = model(2);
    let mut map = tensors(2);
    for name in tensors(1).keys().filter(|n| n.starts_with("layers.0.")) {
        let other = name.replace("layers.0.", "layers.1.");
        let (a, b) = (map[name].clone(), map[&other].clone());
        map.insert(name.clone(), b);
        map.insert(other, a);
    }
    let swapped = load(&config(2), map, DType::F32).unwrap();
    let prompt = ids(&[&[1, 2, 3]]);
    let a: Vec<f32> = m.forward_all(&prompt).unwrap().flatten_all().unwrap().to_vec1().unwrap();
    let b: Vec<f32> =
        swapped.forward_all(&prompt).unwrap().flatten_all().unwrap().to_vec1().unwrap();
    assert_ne!(a, b);
}

#[test]
fn copies_compute_the_same() {
    let m = model(2);
    let prompt = ids(&[&[1, 2, 3]]);
    same(&m.clone().forward_all(&prompt).unwrap(), &m.forward_all(&prompt).unwrap());
}

#[test]
fn parts_of_other_shapes_are_kept() {
    let z = |s: &[usize]| Tensor::zeros(s, DType::F32, &Device::Cpu).unwrap();
    let parts = |table: &[usize], norm: &[usize]| {
        Model::from_parts(z(table), vec![], z(norm), DType::F32, 4)
    };
    let m = parts(&[3, 4], &[4]);
    assert!(m.has_shapes());
    assert!(m.takes_all(&ids(&[&[1]])));
    let state = State { hs: vec![], conv_states: vec![], pos: 0 };
    for m in [parts(&[4, 3], &[4]), parts(&[4], &[4]), parts(&[3, 4], &[3]), parts(&[3, 4], &[])] {
        assert!(!m.has_shapes());
        assert!(!m.takes_all(&ids(&[&[1]])));
        assert!(!m.takes_prompt(&ids(&[&[1]])));
        assert!(!m.takes_token(&tokens(&[1]), &state));
        // Identifiers of other dimensions come to an error first.
        assert!(m.takes_all(&tokens(&[1])));
        assert!(m.forward_all(&tokens(&[1])).is_err());
    }
}

#[test]
fn empty_batch_does_not_compare_types() {
    let m = model(2);
    let mut state = State::new(0, &config(2), DType::F32, &Device::Cpu).unwrap();
    state.hs[1] = state.hs[1].to_dtype(DType::F64).unwrap();
    let none = Tensor::zeros(0, DType::U32, &Device::Cpu).unwrap();
    assert_eq!(m.forward_generate(&none, &mut state).unwrap().dims(), &[0, 12]);
    assert_eq!(state.hs[1].dtype(), DType::F32);
    let mut state = State::new(1, &config(2), DType::F32, &Device::Cpu).unwrap();
    state.hs[1] = state.hs[1].to_dtype(DType::F64).unwrap();
    assert!(m.forward_generate(&tokens(&[1]), &mut state).is_err());
}

#[test]
fn what_a_prefill_asks_of_the_last_normalisation() {
    // Without layers, the last tokens of several prompts can be of any type of fractions.
    let z = |s: &[usize], dt: DType| Tensor::ones(s, dt, &Device::Cpu).unwrap();
    let wide = Model::from_parts(z(&[3, 4], DType::F64), vec![], z(&[4], DType::F64), DType::F64, 4);
    let many = ids(&[&[0, 1], &[1, 2]]);
    assert_eq!(wide.forward_prefill(&many).unwrap().0.dims(), &[2, 3]);
    assert!(wide.forward_prefill(&ids(&[&[0, 1]])).is_err());
    assert!(wide.forward_prefill(&ids(&[&[0], &[1]])).is_err());
    assert!(wide.forward_all(&many).is_err());
    let small =
        Model::from_parts(z(&[3, 4], DType::BF16), vec![], z(&[4], DType::BF16), DType::BF16, 4);
    assert!(small.forward_prefill(&many).is_err());
    let none = Tensor::zeros((0, 2), DType::U32, &Device::Cpu).unwrap();
    assert_eq!(small.forward_prefill(&none).unwrap().0.dims(), &[0, 3]);
    assert!(wide.forward_prefill(&none).is_err());
}

#[test]
fn prefill_and_generation_go_where_all_went() {
    let m = model(2);
    let prompt = ids(&[&[1, 2, 3], &[4, 5, 6]]);
    assert!(m.forward_all(&prompt).is_ok());
    for n in 1..4 {
        let (_, mut state) = m.forward_prefill(&prompt.narrow(1, 0, n).unwrap()).unwrap();
        assert!(m.forward_generate(&tokens(&[7, 8]), &mut state).is_ok());
        assert!(m.forward_generate(&tokens(&[9, 10]), &mut state).is_ok());
    }
}
