use inferencemesh::config::{default_max_position_embeddings_val, BatchConfig, ModelConfig, TensorView};
use inferencemesh::dtype::Dtype;
use inferencemesh::memory::{CacheError, MemoryCache};

fn config(heads: usize, kv: Option<usize>, max_pos: Option<usize>) -> ModelConfig {
    ModelConfig {
        hidden_size: 128,
        intermediate_size: 256,
        num_attention_heads: heads,
        num_key_value_heads: kv,
        num_hidden_layers: 2,
        rms_norm_eps_bits: 1e-5f64.to_bits(),
        rope_theta_bits: 10000.0f64.to_bits(),
        max_position_embeddings: max_pos,
        max_position_embeddings_fallback: default_max_position_embeddings_val(),
        model_type: Some("llama".to_string()),
    }
}

#[test]
fn model_config_derived_sizes() {
    let c = config(4, Some(2), Some(2048));
    assert_eq!(c.head_dim(), 32);
    assert_eq!(c.num_key_value_heads(), 2);
    assert_eq!(c.num_key_value_groups(), 2);
    assert_eq!(c.max_position_embeddings(), 2048);
    let d = config(8, None, None);
    assert_eq!(d.num_key_value_heads(), 8);
    assert_eq!(d.num_key_value_groups(), 1);
    assert_eq!(d.max_position_embeddings(), 8192);
    assert_eq!(default_max_position_embeddings_val(), 8192);
}

#[test]
fn tensor_view_sizes() {
    let t = TensorView { dtype: Dtype::BF16, shape: vec![2, 3, 4], data: vec![] };
    assert_eq!(t.num_elements(), 24);
    assert_eq!(t.byte_len(), 48);
    let s = TensorView { dtype: Dtype::F32, shape: vec![], data: vec![] };
    assert_eq!(s.num_elements(), 1);
    assert_eq!(s.byte_len(), 4);
    let z = TensorView { dtype: Dtype::F16, shape: vec![5, 0, 7], data: vec![] };
    assert_eq!(z.byte_len(), 0);
}

#[test]
fn batch_config_default() {
    let b = BatchConfig::default();
    assert_eq!(b, BatchConfig { max_batch_size: 8, max_latency_ms: 5, enabled: false });
}

#[test]
fn memory_cache_accounts_for_allocations() {
    let mut m = MemoryCache::new(100);
    assert_eq!(m.bytes_left(), 100);
    let h1 = m.allocate(&[2, 5], 4).unwrap();
    assert_eq!(h1, 1);
    assert_eq!(m.bytes_left(), 60);
    let h2 = m.allocate(&[3], 20).unwrap();
    assert_eq!(h2, 2);
    assert_eq!(m.bytes_left(), 0);
    assert_eq!(m.allocate(&[1], 1), Err(CacheError::CacheFull { needed: 1, available: 0 }));
    m.free(h1);
    assert_eq!(m.bytes_left(), 40);
    m.free(h1);
    assert_eq!(m.bytes_left(), 40);
    assert_eq!(m.allocate(&[50], 1), Err(CacheError::CacheFull { needed: 50, available: 40 }));
    let h3 = m.allocate(&[], 40).unwrap();
    assert_eq!(h3, 3);
    assert_eq!(m.bytes_left(), 0);
    m.free(h2);
    m.free(h3);
    assert_eq!(m.bytes_left(), 100);
}
