use candle_core::{DType, Device};
use mamba_prefill::{Config, State};

fn config(d_model: usize, n_layer: usize, vocab_size: usize, pad: usize) -> Config {
    Config {
        d_model,
        n_layer,
        vocab_size,
        pad_vocab_size_multiple: pad,
    }
}

#[test]
fn test_config() {
    let cfg = Config {
        d_model: 768,
        n_layer: 24,
        vocab_size: 50257,
        pad_vocab_size_multiple: 8,
    };
    assert_eq!(cfg.vocab_size(), 50264); // Padded
    assert_eq!(cfg.d_inner(), 1536);
    assert_eq!(cfg.dt_rank(), 48);
}

#[test]
fn padding_is_the_smallest_multiple() {
    for vocab in 0..50 {
        for pad in 1..12 {
            let rows = config(1, 1, vocab, pad).vocab_size();
            assert_eq!(rows % pad, 0);
            assert!(rows >= vocab && rows < vocab + pad);
            assert_eq!(config(1, 1, rows, pad).vocab_size(), rows);
        }
    }
}

#[test]
fn padding_at_the_edge_of_the_numbers() {
    assert_eq!(config(1, 1, usize::MAX, 1).vocab_size(), usize::MAX);
    assert_eq!(config(1, 1, usize::MAX - 1, usize::MAX).vocab_size(), usize::MAX);
    assert_eq!(config(1, 1, 0, 7).vocab_size(), 0);
}

#[test]
fn dt_rank_rounds_up() {
    assert_eq!(config(1, 1, 1, 1).dt_rank(), 1);
    assert_eq!(config(16, 1, 1, 1).dt_rank(), 1);
    assert_eq!(config(17, 1, 1, 1).dt_rank(), 2);
    assert_eq!(config(0, 1, 1, 1).dt_rank(), 0);
    assert_eq!(config(usize::MAX, 1, 1, 1).dt_rank(), usize::MAX / 16 + 1);
}

#[test]
fn room_for_a_model() {
    assert!(config(768, 24, 50257, 8).has_room());
    assert!(!config(768, 24, 50257, 0).has_room());
    assert!(!config(0, 1, 10, 1).has_room());
    assert!(config(0, 0, 10, 1).has_room());
    assert!(!config(1, 0, usize::MAX, 2).has_room());
    assert!(!config(usize::MAX, 1, 1, 1).has_room());
    assert!(!config(1 << 40, 1, 1, 1).has_room());
}

#[test]
fn test_state_creation() -> Result<(), mamba_prefill::MambaError> {
    let cfg = Config {
        d_model: 64,
        n_layer: 2,
        vocab_size: 100,
        pad_vocab_size_multiple: 1,
    };
    let state = State::new(1, &cfg, DType::F32, &Device::Cpu)?;
    assert_eq!(state.hs.len(), 2);
    assert_eq!(state.conv_states.len(), 2);
    assert_eq!(state.pos, 0);
    Ok(())
}

#[test]
fn new_state_is_zero() {
    let cfg = config(3, 2, 10, 1);
    let state = State::new(2, &cfg, DType::F64, &Device::Cpu).unwrap();
    for h in &state.hs {
        assert_eq!(h.dims(), &[2, 6, 16]);
        assert_eq!(h.dtype(), DType::F64);
        let numbers: Vec<f64> = h.flatten_all().unwrap().to_vec1().unwrap();
        assert!(numbers.iter().all(|x| x.to_bits() == 0));
    }
    for c in &state.conv_states {
        assert_eq!(c.dims(), &[2, 6, 4]);
        let numbers: Vec<f64> = c.flatten_all().unwrap().to_vec1().unwrap();
        assert!(numbers.iter().all(|x| x.to_bits() == 0));
    }
}

#[test]
fn state_of_a_type_that_cannot_be_stored() {
    assert!(State::new(1, &config(1, 1, 1, 1), DType::F4, &Device::Cpu).is_err());
    let none = State::new(1, &config(1, 0, 1, 1), DType::F4, &Device::Cpu).unwrap();
    assert!(none.hs.is_empty() && none.conv_states.is_empty());
}

#[test]
fn room_for_a_state() {
    assert!(State::has_room(8, &config(768, 24, 1, 1)));
    assert!(!State::has_room(usize::MAX, &config(768, 24, 1, 1)));
    assert!(State::has_room(usize::MAX, &config(768, 0, 1, 1)));
    assert!(!State::has_room(1, &config(usize::MAX, 0, 1, 1)));
}
