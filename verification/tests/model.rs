use candle_core::{DType, Device, IndexOp, Tensor};
use nanochat_rs::engine::{last_position, GenerateError, Generator, Prefill, SamplingParams};
use nanochat_rs::model::attention::{
    build_causal_mask, can_merge, can_repeat, merge_heads, repeat_kv, CausalSelfAttention,
};
use nanochat_rs::model::builder::{
    block_name, device_candidates, weight_format, DeviceKind, MetaConfig, ModelShapes,
    WeightFormat,
};
use nanochat_rs::model::gpt::{ConfigError, GPTConfig};
use nanochat_rs::model::kv::KVCache;
use nanochat_rs::model::loss::{plan_loss, LossError, LossReduction, Reduced};
use nanochat_rs::model::rope::RoPE;
use nanochat_rs::model::tensor::{addressable, is_workable};
use nanochat_rs::model::ModelError;
use nanochat_rs::sampling::{choose_tokens, earliest_hit, plan_sampling, Plan, SamplingError};
use nanochat_rs::temperature::Temperature;

fn count(shape: (usize, usize, usize, usize), from: f32) -> Tensor {
    let n = shape.0 * shape.1 * shape.2 * shape.3;
    let values: Vec<f32> = (0..n).map(|i| from + i as f32).collect();
    Tensor::from_vec(values, shape, &Device::Cpu).unwrap()
}

fn flat(t: &Tensor) -> Vec<f32> {
    t.flatten_all().unwrap().to_vec1::<f32>().unwrap()
}

fn config() -> GPTConfig {
    GPTConfig {
        vocab_size: 10,
        n_embd: 8,
        n_layer: 2,
        n_head: 4,
        n_kv_head: 2,
        sequence_len: 16,
    }
}

#[test]
fn valid_and_invalid_configurations() {
    assert!(config().validate().is_ok());
    let fault = |change: fn(&mut GPTConfig)| -> String {
        let mut c = config();
        change(&mut c);
        match c.validate() {
            Ok(()) => "valid".to_string(),
            Err(e) => e.message(),
        }
    };
    assert_eq!(
        fault(|c| c.n_layer = 0),
        "config must have at least one layer"
    );
    assert_eq!(fault(|c| c.n_head = 0), "config.n_head must be > 0");
    assert_eq!(
        fault(|c| c.n_head = 3),
        "n_embd (8) must be divisible by n_head (3)"
    );
    assert_eq!(fault(|c| c.n_head = 8), "head_dim must be even");
    assert_eq!(
        fault(|c| c.n_kv_head = 3),
        "n_head (4) must be a multiple of n_kv_head (3)"
    );
    assert_eq!(
        fault(|c| c.n_kv_head = 0),
        "n_head (4) must be a multiple of n_kv_head (0)"
    );
    assert!(config().check_vocabulary(10).is_ok());
    match config().check_vocabulary(11) {
        Err(e) => {
            assert!(matches!(e, ConfigError::Vocabulary(10, 11)));
            assert_eq!(
                e.message(),
                "Model and tokenizer have different vocab sizes: 10 != 11"
            );
        }
        Ok(()) => panic!("the sizes differ"),
    }
}

#[test]
fn sizes_of_weights() {
    let shapes = ModelShapes::new(&config());
    assert_eq!(shapes.head_dim, 2);
    assert_eq!(shapes.q, (8, 8));
    assert_eq!(shapes.k, (8, 4));
    assert_eq!(shapes.v, (8, 4));
    assert_eq!(shapes.o, (8, 8));
    assert_eq!(shapes.up, (8, 32));
    assert_eq!(shapes.down, (32, 8));
    assert_eq!(shapes.lm_head, (8, 10));
    assert_eq!(shapes.max_positions, 32);
    assert_eq!(block_name(12), "h.12");
    let meta = MetaConfig {
        model_config: config(),
    };
    assert_eq!(ModelShapes::new(&meta.model_config).head_dim, 2);
}

#[test]
fn forms_of_weights() {
    assert_eq!(
        weight_format("SafeTensors"),
        Some(WeightFormat::SafeTensors)
    );
    assert_eq!(weight_format("PT"), Some(WeightFormat::Pth));
    assert_eq!(weight_format("pth"), Some(WeightFormat::Pth));
    assert_eq!(weight_format("bin"), None);
    assert_eq!(weight_format(""), None);
}

#[test]
fn devices_are_tried_in_order() {
    assert_eq!(
        device_candidates(true, true, 2),
        vec![DeviceKind::Cuda(2), DeviceKind::Metal(0), DeviceKind::Cpu]
    );
    assert_eq!(device_candidates(false, false, 2), vec![DeviceKind::Cpu]);
}

#[test]
fn sizes_that_can_be_addressed() {
    assert!(addressable(&vec![2, 3, 0, 4]));
    assert!(addressable(&vec![]));
    assert!(!addressable(&vec![usize::MAX, 0]));
    assert!(!addressable(&vec![1 << 32, 1 << 32]));
    assert!(addressable(&vec![isize::MAX as usize / 8]));
    assert!(!addressable(&vec![isize::MAX as usize / 8 + 1]));
}

fn cache(layers: usize, capacity: usize) -> KVCache {
    KVCache::new(layers, (1, 2, capacity, 2), &Device::Cpu, DType::F32).unwrap()
}

#[test]
fn a_cache_needs_layers() {
    let none = KVCache::new(0, (1, 2, 4, 2), &Device::Cpu, DType::F32);
    assert!(matches!(none, Err(ModelError::NoLayers)));
    let some = cache(2, 4);
    assert_eq!(some.pos(), 0);
    assert_eq!(some.max_pos(), 4);
}

#[test]
fn what_is_inserted_is_read_back() {
    let mut cache = cache(1, 2);
    let (k1, v1) = (count((1, 2, 1, 2), 1.0), count((1, 2, 1, 2), 100.0));
    let (keys, values) = cache.insert_layer(0, k1.clone(), v1.clone()).unwrap();
    assert_eq!(flat(&keys), vec![1.0, 2.0, 3.0, 4.0]);
    assert_eq!(flat(&values), vec![100.0, 101.0, 102.0, 103.0]);
    assert_eq!(cache.pos(), 1);
    let (k2, v2) = (count((1, 2, 2, 2), 10.0), count((1, 2, 2, 2), 200.0));
    let (keys, values) = cache.insert_layer(0, k2.clone(), v2.clone()).unwrap();
    assert_eq!(keys.dims(), &[1, 2, 3, 2]);
    assert_eq!(flat(&keys), flat(&Tensor::cat(&[&k1, &k2], 2).unwrap()));
    assert_eq!(flat(&values), flat(&Tensor::cat(&[&v1, &v2], 2).unwrap()));
    assert_eq!(cache.pos(), 3);
    assert_eq!(cache.max_pos(), 4);
    cache.reset();
    assert_eq!(cache.pos(), 0);
    assert_eq!(cache.max_pos(), 4);
}

#[test]
fn positions_count_once_the_last_layer_has_them() {
    let mut cache = cache(2, 4);
    let k = count((1, 2, 3, 2), 0.0);
    cache.insert_layer(0, k.clone(), k.clone()).unwrap();
    assert_eq!(cache.pos(), 0);
    cache.insert_layer(1, k.clone(), k.clone()).unwrap();
    assert_eq!(cache.pos(), 3);
}

#[test]
fn insertions_that_are_refused() {
    let mut cache = cache(1, 4);
    let flat_keys = Tensor::zeros((2, 2), DType::F32, &Device::Cpu).unwrap();
    assert!(matches!(
        cache.insert_layer(0, flat_keys.clone(), flat_keys),
        Err(ModelError::Rank)
    ));
    let none = Tensor::zeros((1, 2, 0, 2), DType::F32, &Device::Cpu).unwrap();
    assert!(matches!(
        cache.insert_layer(0, none.clone(), none),
        Err(ModelError::EmptySequence)
    ));
    let wrong = Tensor::zeros((1, 3, 1, 2), DType::F32, &Device::Cpu).unwrap();
    assert!(matches!(
        cache.insert_layer(0, wrong.clone(), wrong),
        Err(ModelError::Shape)
    ));
    let other = Tensor::zeros((1, 2, 1, 2), DType::F64, &Device::Cpu).unwrap();
    assert!(matches!(
        cache.insert_layer(0, other.clone(), other.clone()),
        Err(ModelError::Types)
    ));
    let right = count((1, 2, 1, 2), 0.0);
    assert!(matches!(
        cache.insert_layer(0, right, other),
        Err(ModelError::Types)
    ));
    assert_eq!(cache.pos(), 0);
}

#[test]
fn capacity_doubles() {
    let mut cache = cache(1, 3);
    let k = count((1, 2, 2, 2), 5.0);
    cache.insert_layer(0, k.clone(), k.clone()).unwrap();
    cache.ensure_capacity(3).unwrap();
    assert_eq!(cache.max_pos(), 3);
    cache.ensure_capacity(7).unwrap();
    assert_eq!(cache.max_pos(), 12);
    assert_eq!(cache.pos(), 2);
    let next = count((1, 2, 1, 2), 50.0);
    let (keys, _) = cache.insert_layer(0, next.clone(), next.clone()).unwrap();
    assert_eq!(flat(&keys), flat(&Tensor::cat(&[&k, &next], 2).unwrap()));
    let mut empty = self::cache(1, 0);
    empty.ensure_capacity(5).unwrap();
    assert_eq!(empty.max_pos(), 8);
    assert!(empty.has_room_for(1 << 20));
    assert!(!empty.has_room_for(usize::MAX));
    assert!(empty.has_room_for_batch(100));
    assert!(!empty.has_room_for_batch(usize::MAX));
}

#[test]
fn a_batch_of_one_is_expanded() {
    let mut cache = cache(1, 4);
    let k = count((1, 2, 1, 2), 7.0);
    cache.insert_layer(0, k.clone(), k.clone()).unwrap();
    assert!(matches!(
        cache.expand_batch(0),
        Err(ModelError::EmptyBatch)
    ));
    cache.expand_batch(1).unwrap();
    cache.expand_batch(3).unwrap();
    assert_eq!(cache.pos(), 1);
    assert_eq!(cache.max_pos(), 4);
    assert!(matches!(
        cache.expand_batch(2),
        Err(ModelError::BatchChange(3, 2))
    ));
    let next = count((3, 2, 1, 2), 70.0);
    let (keys, _) = cache.insert_layer(0, next.clone(), next.clone()).unwrap();
    let before = k.repeat((3, 1, 1, 1)).unwrap();
    assert_eq!(flat(&keys), flat(&Tensor::cat(&[&before, &next], 2).unwrap()));
}

fn rope(dtype: DType, max_positions: usize, head_dim: usize) -> RoPE {
    let half = head_dim / 2;
    let mut cos: Vec<f32> = Vec::new();
    let mut sin: Vec<f32> = Vec::new();
    for p in 0..max_positions {
        for i in 0..half {
            let angle = p as f32 * 10_000f32.powf(-((2 * i) as f32 / head_dim as f32));
            cos.push(angle.cos());
            sin.push(angle.sin());
        }
    }
    let table = |values: Vec<f32>| {
        Tensor::from_vec(values, (max_positions, half), &Device::Cpu)
            .unwrap()
            .to_dtype(dtype)
            .unwrap()
    };
    RoPE::with_tables(table(cos), table(sin), max_positions, head_dim).unwrap()
}

#[test]
fn test_rope_v2_basic() {
    let device = Device::Cpu;
    let rope = rope(DType::F32, 2048, 64);

    let x = Tensor::randn(0.0f32, 1.0, (2, 16, 8, 64), &device).unwrap();
    let rotated = rope.apply(&x, 0).unwrap();
    assert_eq!(rotated.dims(), x.dims());

    let rotated_offset = rope.apply(&x, 100).unwrap();
    assert_eq!(rotated_offset.dims(), x.dims());
}

#[test]
fn heads_are_turned_pair_by_pair() {
    let rope = rope(DType::F32, 8, 4);
    let x = Tensor::from_vec(vec![1f32, 2.0, 3.0, 4.0], (1, 1, 1, 4), &Device::Cpu).unwrap();
    let y = flat(&rope.apply(&x, 3).unwrap());
    let (c0, s0) = (3f32.cos(), 3f32.sin());
    let angle = 3f32 * 10_000f32.powf(-0.5);
    let (c1, s1) = (angle.cos(), angle.sin());
    assert_eq!(y[0], 1.0 * c0 + 3.0 * s0);
    assert_eq!(y[1], 2.0 * c1 + 4.0 * s1);
    assert_eq!(y[2], 3.0 * c0 - 1.0 * s0);
    assert_eq!(y[3], 4.0 * c1 - 2.0 * s1);
}

#[test]
fn parts_of_a_sequence_are_turned_alike() {
    let rope = rope(DType::F32, 32, 4);
    let x = count((2, 6, 3, 4), 0.5);
    let whole = rope.apply(&x, 5).unwrap();
    let part = rope.apply(&x.narrow(1, 2, 3).unwrap(), 7).unwrap();
    assert_eq!(flat(&part), flat(&whole.narrow(1, 2, 3).unwrap()));
}

#[test]
fn tables_are_turned_into_the_type_of_the_heads() {
    let rope = rope(DType::BF16, 8, 2);
    let x = Tensor::from_vec(vec![1f32, 0.0], (1, 1, 1, 2), &Device::Cpu).unwrap();
    let y = rope.apply(&x, 1).unwrap();
    assert_eq!(y.dtype(), DType::F32);
    assert_eq!(flat(&y)[0], 0.5390625);
}

#[test]
fn integers_are_turned_too() {
    let table = |value: f32| Tensor::full(value, (2, 2), &Device::Cpu).unwrap();
    let rope = RoPE::with_tables(table(2.0), table(1.0), 2, 4).unwrap();
    let x = Tensor::from_vec(vec![5u32, 6, 7, 8], (1, 1, 1, 4), &Device::Cpu).unwrap();
    let y = rope.apply(&x, 1).unwrap();
    assert_eq!(
        y.flatten_all().unwrap().to_vec1::<u32>().unwrap(),
        vec![17, 20, 9, 10]
    );
}

#[test]
fn heads_that_cannot_be_turned() {
    let rope = rope(DType::F32, 8, 4);
    let wide = count((1, 1, 1, 6), 0.0);
    assert!(matches!(
        rope.apply(&wide, 0),
        Err(ModelError::HeadDim(6, 4))
    ));
    let long = count((1, 3, 1, 4), 0.0);
    assert!(rope.apply(&long, 5).is_ok());
    assert!(matches!(
        rope.apply(&long, 6),
        Err(ModelError::Positions(6, 9, 8))
    ));
    let flat_heads = Tensor::zeros((2, 4), DType::F32, &Device::Cpu).unwrap();
    assert!(matches!(rope.apply(&flat_heads, 0), Err(ModelError::Rank)));
    let table = Tensor::zeros((8, 3), DType::F32, &Device::Cpu).unwrap();
    assert!(RoPE::with_tables(table.clone(), table, 8, 4).is_err());
}

#[test]
fn heads_that_are_known_to_turn() {
    let rope = rope(DType::F32, 8, 4);
    let heads = count((1, 2, 1, 4), 0.0);
    assert!(rope.can_apply(&heads, 3));
    assert!(!rope.can_apply(&heads, usize::MAX));
    let whole = heads.to_dtype(DType::U32).unwrap();
    assert!(!rope.can_apply(&whole, 3));
    let half = heads.to_dtype(DType::F16).unwrap();
    assert!(rope.can_apply(&half, 3));
    let double = self::rope(DType::F64, 8, 4);
    assert!(double.can_apply(&half, 3));
    let turned = double.apply(&half, 3).unwrap();
    assert_eq!(turned.dims(), half.dims());
    assert_eq!(turned.dtype(), DType::F16);
    let attention = CausalSelfAttention::new(&config());
    let q = count((1, 1, 2, 8), 0.0).reshape((1, 2, 8)).unwrap();
    assert!(attention.can_split(&q, &q, &q, 1, 2, 0));
    assert!(!attention.can_split(&q, &q, &q, usize::MAX, 2, 0));
    let ids = q.to_dtype(DType::U32).unwrap();
    assert!(!attention.can_split(&q, &ids, &q, 1, 2, 0));
    assert!(can_merge(&heads));
    assert!(!attention.can_gather(&heads, &heads, &heads, u32::MAX as usize));
}

#[test]
fn the_mask_is_causal() {
    let mask = build_causal_mask(&Device::Cpu, 2, 2, 4).unwrap();
    assert_eq!(
        mask.to_vec2::<u8>().unwrap(),
        vec![vec![1, 1, 1, 0], vec![1, 1, 1, 1]]
    );
}

#[test]
fn heads_are_repeated_next_to_each_other() {
    let x = count((1, 2, 2, 1), 1.0);
    let y = repeat_kv(&x, 3).unwrap();
    assert_eq!(y.dims(), &[1, 6, 2, 1]);
    assert_eq!(
        flat(&y),
        vec![1.0, 2.0, 1.0, 2.0, 1.0, 2.0, 3.0, 4.0, 3.0, 4.0, 3.0, 4.0]
    );
    assert_eq!(flat(&repeat_kv(&x, 1).unwrap()), flat(&x));
    let row = Tensor::zeros(3, DType::F32, &Device::Cpu).unwrap();
    assert!(matches!(repeat_kv(&row, 2), Err(ModelError::Rank)));
    assert!(can_repeat(&x, 3) && can_repeat(&row, 2));
    assert!(!can_repeat(&x, 0) && !can_repeat(&x, usize::MAX));
}

#[test]
fn heads_are_cut_and_merged() {
    let attention = CausalSelfAttention::new(&config());
    assert_eq!(attention.head_dim, 2);
    assert_eq!(attention.kv_repeat, 2);
    let still = RoPE::with_tables(
        Tensor::ones((4, 1), DType::F32, &Device::Cpu).unwrap(),
        Tensor::zeros((4, 1), DType::F32, &Device::Cpu).unwrap(),
        4,
        2,
    )
    .unwrap();
    let q = count((1, 1, 2, 8), 0.0).reshape((1, 2, 8)).unwrap();
    let k = count((1, 1, 2, 4), 50.0).reshape((1, 2, 4)).unwrap();
    let (qh, kh, vh) = attention
        .split_heads(&q, &k, &k, 1, 2, &still, 0)
        .unwrap();
    assert_eq!(qh.dims(), &[1, 2, 4, 2]);
    assert_eq!(flat(&qh.i((0, 1, 3)).unwrap()), vec![14.0, 15.0]);
    assert_eq!(kh.dims(), &[1, 2, 2, 2]);
    assert_eq!(flat(&vh), flat(&k));
    assert!(matches!(
        attention.split_heads(&q, &q, &k, 1, 2, &still, 0),
        Err(ModelError::Shape)
    ));
    assert!(matches!(
        attention.split_heads(&q, &k, &k, 1, 2, &still, 3),
        Err(ModelError::Positions(3, 5, 4))
    ));
    let wide = rope(DType::F32, 4, 4);
    assert!(matches!(
        attention.split_heads(&q, &k, &k, 1, 2, &wide, 0),
        Err(ModelError::HeadDim(2, 4))
    ));
    let rows = qh.transpose(1, 2).unwrap();
    let merged = merge_heads(&rows).unwrap();
    assert_eq!(merged.dims(), &[1, 2, 8]);
    assert_eq!(flat(&merged), flat(&q));
    assert!(matches!(merge_heads(&q), Err(ModelError::Rank)));
    assert!(matches!(
        CausalSelfAttention::input_shape(&q),
        Ok((1, 2))
    ));
    let none = Tensor::zeros((1, 0, 8), DType::F32, &Device::Cpu).unwrap();
    assert!(matches!(
        CausalSelfAttention::input_shape(&none),
        Err(ModelError::EmptySequence)
    ));
    assert!(matches!(
        CausalSelfAttention::input_shape(&qh),
        Err(ModelError::Rank)
    ));
}

#[test]
fn attention_sees_the_cache() {
    let mut c = config();
    c.n_kv_head = 4;
    let attention = CausalSelfAttention::new(&c);
    let mut cache = KVCache::new(1, (1, 4, 1, 2), &Device::Cpu, DType::F32).unwrap();
    let first = count((1, 2, 4, 2), 0.0);
    assert!(attention.can_gather(&first, &first, &first, cache.pos()));
    assert!(cache.has_room_for(2));
    let a = attention
        .gather_cached(&mut cache, 0, &first, &first, &first)
        .unwrap();
    assert_eq!(a.q.dims(), &[1, 4, 2, 2]);
    assert_eq!(flat(&a.k), flat(&first.transpose(1, 2).unwrap()));
    let mask = a.mask.unwrap();
    assert_eq!(mask.dims(), &[1, 1, 2, 2]);
    assert_eq!(
        mask.flatten_all().unwrap().to_vec1::<u8>().unwrap(),
        vec![1, 0, 1, 1]
    );
    let second = count((1, 1, 4, 2), 100.0);
    let b = attention
        .gather_cached(&mut cache, 0, &second, &second, &second)
        .unwrap();
    assert!(b.mask.is_none());
    let both = Tensor::cat(&[&first, &second], 1).unwrap();
    assert_eq!(flat(&b.k), flat(&both.transpose(1, 2).unwrap()));
    assert_eq!(flat(&b.v), flat(&both.transpose(1, 2).unwrap()));
    assert_eq!(cache.pos(), 3);
    let alone = attention.gather(&both, &both, &both).unwrap();
    assert_eq!(flat(&alone.k), flat(&b.k));
    assert_eq!(alone.mask.unwrap().dims(), &[1, 1, 3, 3]);
    assert!(matches!(
        attention.gather(&second, &both, &both),
        Err(ModelError::CacheLength(1, 3))
    ));
    let row = Tensor::zeros(3, DType::F32, &Device::Cpu).unwrap();
    assert!(matches!(
        attention.gather(&row, &both, &both),
        Err(ModelError::Rank)
    ));
    let none = Tensor::zeros((1, 0, 4, 2), DType::F32, &Device::Cpu).unwrap();
    assert!(matches!(
        attention.gather_cached(&mut cache, 0, &none, &none, &none),
        Err(ModelError::EmptySequence)
    ));
}

#[test]
fn tensors_without_elements() {
    let zeros = Tensor::zeros((1, 1, 1, 3), DType::F32, &Device::Cpu).unwrap();
    let none = zeros.narrow(3, 3, 0).unwrap().narrow(2, 1, 0).unwrap();
    assert!(is_workable(&none));
    assert_eq!(repeat_kv(&none, 2).unwrap().dims(), &[1, 2, 0, 0]);
    assert_eq!(merge_heads(&none).unwrap().dims(), &[1, 0, 0]);
    let table = Tensor::zeros((3, 1), DType::BF16, &Device::Cpu)
        .unwrap()
        .narrow(0, 3, 0)
        .unwrap();
    let rope = RoPE::with_tables(table.clone(), table, 0, 2).unwrap();
    let heads = Tensor::zeros((1, 0, 3, 2), DType::F32, &Device::Cpu).unwrap();
    assert_eq!(rope.apply(&heads, 0).unwrap().dims(), &[1, 0, 3, 2]);
    let mut cache = KVCache::new(1, (1, 0, 1, 2), &Device::Cpu, DType::F32).unwrap();
    let k = Tensor::zeros((1, 0, 2, 2), DType::F32, &Device::Cpu).unwrap();
    let (keys, _) = cache.insert_layer(0, k.clone(), k.clone()).unwrap();
    assert_eq!(keys.dims(), &[1, 0, 2, 2]);
    cache.insert_layer(0, k.clone(), k).unwrap();
    cache.expand_batch(3).unwrap();
    assert_eq!(cache.pos(), 4);
    assert_eq!(cache.max_pos(), 4);
}

#[test]
fn a_first_insertion() {
    let mut cache = KVCache::new(1, (1, 1, 4, 1), &Device::Cpu, DType::F32).unwrap();
    let (k, v) = (count((1, 1, 1, 1), 5.0), count((1, 1, 1, 1), 6.0));
    let (keys, values) = cache.insert_layer(0, k, v).unwrap();
    assert_eq!(keys.dims(), &[1, 1, 1, 1]);
    assert_eq!((flat(&keys), flat(&values)), (vec![5.0], vec![6.0]));
    assert_eq!((cache.pos(), cache.max_pos()), (1, 4));
}

#[test]
fn later_positions_are_not_seen() {
    let mut c = config();
    c.n_kv_head = 4;
    let attention = CausalSelfAttention::new(&c);
    let start = count((1, 2, 4, 2), 0.0);
    let one = Tensor::cat(&[&start, &count((1, 1, 4, 2), 100.0)], 1).unwrap();
    let two = Tensor::cat(&[&start, &count((1, 1, 4, 2), 900.0)], 1).unwrap();
    let a = attention.gather(&one, &one, &one).unwrap();
    let b = attention.gather(&two, &two, &two).unwrap();
    for row in 0..2usize {
        let mask = a.mask.as_ref().unwrap().i((0, 0, row)).unwrap();
        for (column, &seen) in mask.to_vec1::<u8>().unwrap().iter().enumerate() {
            assert_eq!(seen == 1, column <= row);
            if seen == 1 {
                let at = |t: &Tensor| flat(&t.narrow(2, column, 1).unwrap());
                assert_eq!(at(&a.k), at(&b.k));
                assert_eq!(at(&a.v), at(&b.v));
            }
        }
    }
}

#[test]
fn keys_stay_in_the_cache() {
    let mut c = config();
    c.n_kv_head = 4;
    let attention = CausalSelfAttention::new(&c);
    let mut cache = KVCache::new(2, (1, 4, 1, 2), &Device::Cpu, DType::F32).unwrap();
    let one = count((1, 1, 4, 2), 0.0);
    let two = count((1, 1, 4, 2), 50.0);
    attention.gather_cached(&mut cache, 0, &one, &one, &one).unwrap();
    attention.gather_cached(&mut cache, 1, &two, &two, &two).unwrap();
    let long = Tensor::cat(&[&one, &two], 1).unwrap();
    assert!(matches!(
        attention.gather_cached(&mut cache, 0, &one, &long, &long),
        Err(ModelError::CacheLength(2, 3))
    ));
    let narrow = count((1, 1, 3, 2), 0.0);
    assert!(matches!(
        attention.gather_cached(&mut cache, 0, &one, &narrow, &narrow),
        Err(ModelError::Shape)
    ));
    let wrong = one.to_dtype(DType::F64).unwrap();
    assert!(matches!(
        attention.gather_cached(&mut cache, 0, &one, &wrong, &wrong),
        Err(ModelError::Types)
    ));
    let a = attention.gather_cached(&mut cache, 0, &two, &two, &two).unwrap();
    let b = attention.gather_cached(&mut cache, 1, &one, &one, &one).unwrap();
    assert_eq!(flat(&a.k), flat(&long.transpose(1, 2).unwrap()));
    let turned = Tensor::cat(&[&two, &one], 1).unwrap();
    assert_eq!(flat(&b.v), flat(&turned.transpose(1, 2).unwrap()));
    assert_eq!(cache.pos(), 2);
}

#[test]
fn a_row_for_each_continuation() {
    let mut p = match prefill(vec![1], 2) {
        Ok(p) => p,
        Err(_) => panic!("there is a prompt"),
    };
    p.kv_cache.expand_batch(3).unwrap();
    assert!(matches!(
        Generator::new(p, &params(vec![]), 5),
        Err(GenerateError::Model(ModelError::BatchChange(3, 2)))
    ));
}

#[test]
fn the_last_position_of_logits() {
    let logits = count((1, 2, 3, 2), 0.0).squeeze(0).unwrap();
    let last = last_position(&logits).unwrap();
    assert_eq!(
        last.to_vec2::<f32>().unwrap(),
        vec![vec![4.0, 5.0], vec![10.0, 11.0]]
    );
    assert!(matches!(last_position(&last), Err(ModelError::Rank)));
}

fn params(stop: Vec<u32>) -> SamplingParams {
    SamplingParams::default().with_stop_tokens(stop)
}

fn prefill(prompt: Vec<u32>, samples: usize) -> Result<Prefill, GenerateError> {
    Prefill::new(&config(), &prompt, samples, &Device::Cpu, DType::F32)
}

#[test]
fn generation_needs_a_prompt_and_samples() {
    assert!(matches!(prefill(vec![], 0), Err(GenerateError::EmptyPrompt)));
    assert!(matches!(prefill(vec![1], 0), Err(GenerateError::NoSamples)));
    let p = match prefill(vec![1], 2) {
        Ok(p) => p,
        Err(_) => panic!("there is a prompt"),
    };
    assert_eq!(p.kv_cache.max_pos(), 4);
    assert!(p.can_expand());
    let mut bare = config();
    bare.n_layer = 0;
    assert!(matches!(
        Prefill::new(&bare, &vec![1], 1, &Device::Cpu, DType::F32),
        Err(GenerateError::Model(ModelError::NoLayers))
    ));
}

#[test]
fn sequences_grow_until_they_stop() {
    let p = match prefill(vec![1, 2], 2) {
        Ok(p) => p,
        Err(_) => panic!("there is a prompt"),
    };
    let mut g = Generator::new(p, &params(vec![9]), 9).unwrap();
    assert_eq!(g.current_tokens(), &[9, 9]);
    assert_eq!(g.sequences(), vec![vec![1, 2, 9], vec![1, 2, 9]]);
    assert!(!g.is_completed());
    g.decode_step(&vec![3, 9]);
    assert_eq!(g.sequences(), vec![vec![1, 2, 9, 3], vec![1, 2, 9, 9]]);
    assert!(!g.is_completed());
    g.decode_step(&vec![4, 5]);
    assert_eq!(g.current_tokens(), &[4, 5]);
    assert_eq!(g.sequences(), vec![vec![1, 2, 9, 3, 4], vec![1, 2, 9, 9]]);
    g.decode_step(&vec![9, 9]);
    assert!(g.is_completed());
    g.decode_step(&vec![7, 7]);
    assert_eq!(
        g.sequences(),
        vec![vec![1, 2, 9, 3, 4, 9], vec![1, 2, 9, 9]]
    );
}

#[test]
fn sequences_end_at_the_longest_length() {
    let p = match prefill((0..14).collect(), 1) {
        Ok(p) => p,
        Err(_) => panic!("there is a prompt"),
    };
    let mut g = Generator::new(p, &params(vec![]), 3).unwrap();
    assert!(!g.is_completed());
    g.decode_step(&vec![4]);
    assert!(g.is_completed());
}

#[test]
fn losses_are_planned() {
    let shape = vec![2, 2, 3];
    let plan = match plan_loss(&shape, &vec![2, 2], &vec![1, -1, 2, 0], -1) {
        Ok(plan) => plan,
        Err(_) => panic!("the targets are classes"),
    };
    assert_eq!(plan.valid, vec![true, false, true, true]);
    assert_eq!(plan.classes, vec![1, 0, 2, 0]);
    assert_eq!(plan.valid_count, 3);
    assert_eq!(plan.reduce(LossReduction::Mean), Reduced::MeanOver(3));
    assert_eq!(
        plan.reduce(LossReduction::Unreduced),
        Reduced::PerPosition(2, 2)
    );
    let ignored = match plan_loss(&vec![1, 1, 3], &vec![1, 1], &vec![-1], -1) {
        Ok(plan) => plan,
        Err(_) => panic!("the target is ignored"),
    };
    assert_eq!(ignored.reduce(LossReduction::Mean), Reduced::Infinite);
    assert!(matches!(
        plan_loss(&shape, &vec![2, 2], &vec![1, 3, 0, 0], -1),
        Err(LossError::Target(1))
    ));
    assert!(matches!(
        plan_loss(&shape, &vec![2, 2], &vec![1, -2, 0, 0], -1),
        Err(LossError::Target(1))
    ));
    for target in [1i64 << 32, u32::MAX as i64, -1, i64::MIN] {
        assert!(matches!(
            plan_loss(&shape, &vec![2, 2], &vec![-100, target, 0, 0], -100),
            Err(LossError::Target(1))
        ));
    }
    assert!(matches!(
        plan_loss(&shape, &vec![4, 1], &vec![1, 1, 0, 0], -1),
        Err(LossError::Shape)
    ));
    assert!(matches!(
        plan_loss(&vec![2, 2], &vec![2, 2], &vec![1, 1, 0, 0], -1),
        Err(LossError::Shape)
    ));
}

fn temperature(value: f64) -> Temperature {
    Temperature::from_bits(value.to_bits())
}

#[test]
fn ways_of_sampling() {
    assert_eq!(plan_sampling(temperature(0.0), Some(2), 5), Ok(Plan::Greedy));
    assert_eq!(plan_sampling(temperature(-0.0), None, 5), Ok(Plan::Greedy));
    assert_eq!(plan_sampling(temperature(1.0), Some(2), 5), Ok(Plan::TopK(2)));
    assert_eq!(plan_sampling(temperature(1.0), Some(0), 5), Ok(Plan::Full));
    assert_eq!(plan_sampling(temperature(1.0), Some(5), 5), Ok(Plan::Full));
    assert_eq!(plan_sampling(temperature(1.0), None, 5), Ok(Plan::Full));
    assert_eq!(plan_sampling(temperature(f64::NAN), None, 5), Ok(Plan::Full));
    match plan_sampling(temperature(-1.0), None, 2) {
        Err(e) => assert!(e.message().contains("temperature must be non-negative")),
        Ok(_) => panic!("the temperature is negative"),
    }
}

#[test]
fn choices_go_to_the_earliest_hit() {
    assert_eq!(earliest_hit(&vec![false, true, true]), 1);
    assert_eq!(earliest_hit(&vec![false, false]), 0);
    let hits = vec![vec![false, true, true], vec![true, true, true]];
    assert_eq!(choose_tokens(&hits, None), Ok(vec![1, 0]));
    let mapping = vec![vec![7, 8, 9], vec![4, 5, 6]];
    assert_eq!(choose_tokens(&hits, Some(&mapping)), Ok(vec![8, 4]));
    assert_eq!(
        choose_tokens(&hits, Some(&vec![vec![7, 8, 9]])),
        Err(SamplingError::Shape)
    );
    assert_eq!(
        choose_tokens(&hits, Some(&vec![vec![7, 8, 9], vec![4]])),
        Err(SamplingError::Shape)
    );
}
