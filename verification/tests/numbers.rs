use candle_core::{DType, Device, Tensor, D};
use candle_nn::ops::softmax_last_dim;
use nanochat_rs::model::loss::{plan_loss, LossReduction, Reduced};
use nanochat_rs::sampling::{choose_tokens, plan_sampling, Plan};
use nanochat_rs::temperature::Temperature;
use rand::rngs::StdRng;
use rand::{Rng, SeedableRng};

fn sample_from_probs(probs: &Tensor, mapping: Option<&Tensor>, rng: &mut StdRng) -> Vec<u32> {
    let (batch, _) = probs.dims2().unwrap();
    let cdf = probs.cumsum(D::Minus1).unwrap();
    let mut uniforms: Vec<f32> = Vec::new();
    for _ in 0..batch {
        uniforms.push(rng.random::<f32>().clamp(0.0, 1.0 - f32::EPSILON));
    }
    let uniforms = Tensor::from_vec(uniforms, (batch, 1), probs.device()).unwrap();
    let uniforms = uniforms.broadcast_as(cdf.shape()).unwrap();
    let hits: Vec<Vec<bool>> = cdf
        .ge(&uniforms)
        .unwrap()
        .to_vec2::<u8>()
        .unwrap()
        .into_iter()
        .map(|row| row.into_iter().map(|hit| hit != 0).collect())
        .collect();
    let mapping = mapping.map(|m| m.to_vec2::<u32>().unwrap());
    choose_tokens(&hits, mapping.as_ref()).unwrap()
}

fn sample_next_token(
    logits: &Tensor,
    rng: &mut StdRng,
    temperature: f64,
    top_k: Option<usize>,
) -> Result<Vec<u32>, String> {
    let vocab = logits.dim(D::Minus1).unwrap();
    let plan = plan_sampling(Temperature::from_bits(temperature.to_bits()), top_k, vocab)
        .map_err(|e| e.message())?;
    Ok(match plan {
        Plan::Greedy => logits.argmax(D::Minus1).unwrap().to_vec1::<u32>().unwrap(),
        Plan::TopK(k) => {
            let order = logits.arg_sort_last_dim(false).unwrap();
            let indices = order.narrow(D::Minus1, 0, k).unwrap().contiguous().unwrap();
            let values = logits.gather(&indices, D::Minus1).unwrap();
            let probs = softmax_last_dim(&(values / temperature).unwrap()).unwrap();
            sample_from_probs(&probs, Some(&indices), rng)
        }
        Plan::Full => {
            let probs = softmax_last_dim(&(logits / temperature).unwrap()).unwrap();
            sample_from_probs(&probs, None, rng)
        }
    })
}

#[test]
fn test_greedy_argmax_temperature_zero() {
    let device = Device::Cpu;
    let logits = Tensor::from_vec(
        vec![
            0.1f32, 0.7, 0.2, -1.0, // argmax -> 1
            -0.5, 2.0, 1.9, 1.0, // argmax -> 1
        ],
        (2, 4),
        &device,
    )
    .unwrap();

    let mut rng = StdRng::seed_from_u64(123);
    let next = sample_next_token(&logits, &mut rng, 0.0, None).unwrap();
    assert_eq!(next, vec![1, 1]);
}

#[test]
fn test_topk_restricts_choices() {
    let device = Device::Cpu;
    let logits =
        Tensor::from_vec(vec![0.0f32, -1.0, 10.0, 9.0, -10.0], (1, 5), &device).unwrap();

    for seed in 0..50u64 {
        let mut rng = StdRng::seed_from_u64(seed);
        let next = sample_next_token(&logits, &mut rng, 1.0, Some(2)).unwrap();
        let idx = next[0];
        assert!(idx == 2 || idx == 3, "sampled index {} not in top-2", idx);
    }
}

#[test]
fn test_negative_temperature_errors() {
    let device = Device::Cpu;
    let logits = Tensor::from_vec(vec![0.0f32, 1.0], (1, 2), &device).unwrap();
    let mut rng = StdRng::seed_from_u64(0);
    let msg = sample_next_token(&logits, &mut rng, -1.0, None).unwrap_err();
    assert!(msg.contains("temperature must be non-negative"));
}

#[test]
fn test_topk_zero_equals_full_vocab_seeded() {
    let device = Device::Cpu;
    let logits = Tensor::from_vec(vec![1.0f32, 2.0, 3.0, 4.0], (1, 4), &device).unwrap();

    let mut rng_full = StdRng::seed_from_u64(42);
    let mut rng_k0 = StdRng::seed_from_u64(42);

    let a = sample_next_token(&logits, &mut rng_full, 1.0, None).unwrap();
    let b = sample_next_token(&logits, &mut rng_k0, 1.0, Some(0)).unwrap();
    assert_eq!(a[0], b[0]);
}

#[test]
fn test_cross_entropy_simple() {
    // Two positions, vocab=3. Targets: [1, 2]
    // logits are log-probabilities so that softmax probs are [0.1, 0.7, 0.2] and [0.2, 0.3, 0.5]
    let device = Device::Cpu;
    let logits = Tensor::from_vec(
        vec![
            0.1f32.ln(),
            0.7f32.ln(),
            0.2f32.ln(), // pos 0
            0.2f32.ln(),
            0.3f32.ln(),
            0.5f32.ln(), // pos 1
        ],
        (1, 2, 3),
        &device,
    )
    .unwrap();
    let targets = vec![1i64, 2];
    let plan = match plan_loss(&vec![1, 2, 3], &vec![1, 2], &targets, -1) {
        Ok(plan) => plan,
        Err(_) => panic!("the targets are classes"),
    };
    let rows = logits.reshape((2, 3)).unwrap();
    let classes = Tensor::from_vec(plan.classes.clone(), (2, 1), &device).unwrap();
    let lse = rows.log_sum_exp(D::Minus1).unwrap();
    let picked = rows.gather(&classes, D::Minus1).unwrap().squeeze(D::Minus1).unwrap();
    let mask: Vec<f32> = plan.valid.iter().map(|&v| if v { 1.0 } else { 0.0 }).collect();
    let mask = Tensor::from_vec(mask, 2, &device).unwrap();
    let nll = lse.sub(&picked).unwrap().mul(&mask).unwrap();
    let val = match plan.reduce(LossReduction::Mean) {
        Reduced::MeanOver(count) => {
            let sum = nll.to_dtype(DType::F32).unwrap().sum_all().unwrap();
            sum.to_scalar::<f32>().unwrap() / count as f32
        }
        _ => panic!("there are positions that count"),
    };
    // expected ~= -ln(0.7) + -ln(0.5) / 2 = (0.356675 + 0.693147) / 2 = 0.524911
    assert!((val - 0.5249).abs() < 1e-3, "got {val}");
}
