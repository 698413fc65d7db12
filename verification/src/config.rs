//! The shape of a model, the tensors that workers exchange, and how requests
//! are batched.
//!
//! Floating-point settings are held as the bit patterns of `f64` values.
use vstd::prelude::*;
use crate::dtype::{spec_element_size, Dtype};

verus! {

/// The product of the dimensions `s`.
pub open spec fn shape_product(s: Seq<u64>) -> nat
    decreases s.len(),
{
    if s.len() == 0 {
        1
    } else {
        shape_product(s.drop_last()) * (s.last() as nat)
    }
}

/// Whether every partial product of the dimensions `s`, taken from the
/// first, fits a `u64`.
pub open spec fn product_fits(s: Seq<u64>) -> bool {
    forall|i: int| 0 <= i <= s.len() ==> #[trigger] shape_product(s.take(i)) <= u64::MAX
}

/// A tensor: its element type, dimensions and raw bytes.
#[derive(Debug)]
pub struct TensorView {
    pub dtype: Dtype,
    pub shape: Vec<u64>,
    pub data: Vec<u8>,
}

impl Clone for TensorView {
    fn clone(&self) -> (r: TensorView)
        ensures
            r.dtype == self.dtype,
            r.shape@ == self.shape@,
            r.data@ == self.data@,
    {
        TensorView { dtype: self.dtype, shape: self.shape.clone(), data: self.data.clone() }
    }
}

impl TensorView {
    /// The number of elements: the product of the dimensions, converted to
    /// `usize` as `as` does. No partial product may overflow a `u64`.
    pub fn num_elements(&self) -> (r: usize)
        requires
            product_fits(self.shape@),
        ensures
            r == (shape_product(self.shape@) as u64) as usize,
    {
        let mut p: u64 = 1;
        let mut i: usize = 0;
        assert(self.shape@.take(0) =~= Seq::<u64>::empty());
        while i < self.shape.len()
            invariant
                i <= self.shape@.len(),
                product_fits(self.shape@),
                p as nat == shape_product(self.shape@.take(i as int)),
            decreases self.shape@.len() - i,
        {
            let ghost t = self.shape@.take(i + 1);
            assert(t.drop_last() =~= self.shape@.take(i as int));
            assert(t.last() == self.shape@[i as int]);
            assert(shape_product(t) <= u64::MAX);
            p = p * self.shape[i];
            i = i + 1;
        }
        assert(self.shape@.take(i as int) =~= self.shape@);
        p as usize
    }

    /// The number of bytes the elements take. Both the product of the
    /// dimensions and the byte count must fit.
    pub fn byte_len(&self) -> (r: usize)
        requires
            product_fits(self.shape@),
            ((shape_product(self.shape@) as u64) as usize) * spec_element_size(self.dtype) <= usize::MAX,
        ensures
            r == ((shape_product(self.shape@) as u64) as usize) * spec_element_size(self.dtype),
    {
        let n = self.num_elements();
        n * self.dtype.element_size()
    }
}

/// The fallback number of positions when the model names none.
pub fn default_max_position_embeddings_val() -> (r: usize)
    ensures
        r == 8192,
{
    8192
}

/// The configuration of a transformer model.
#[derive(Debug)]
pub struct ModelConfig {
    pub hidden_size: usize,
    pub intermediate_size: usize,
    pub num_attention_heads: usize,
    pub num_key_value_heads: Option<usize>,
    pub num_hidden_layers: usize,
    pub rms_norm_eps_bits: u64,
    pub rope_theta_bits: u64,
    pub max_position_embeddings: Option<usize>,
    pub max_position_embeddings_fallback: usize,
    pub model_type: Option<String>,
}

impl ModelConfig {
    /// The width of one attention head; the model must have heads.
    pub fn head_dim(&self) -> (r: usize)
        requires
            self.num_attention_heads > 0,
        ensures
            r == self.hidden_size / self.num_attention_heads,
    {
        self.hidden_size / self.num_attention_heads
    }

    /// The number of key/value heads: as configured, else one per attention head.
    pub fn num_key_value_heads(&self) -> (r: usize)
        ensures
            r == match self.num_key_value_heads {
                Some(n) => n,
                None => self.num_attention_heads,
            },
    {
        match self.num_key_value_heads {
            Some(n) => n,
            None => self.num_attention_heads,
        }
    }

    /// How many attention heads share one key/value head; there must be
    /// key/value heads.
    pub fn num_key_value_groups(&self) -> (r: usize)
        requires
            match self.num_key_value_heads {
                Some(n) => n,
                None => self.num_attention_heads,
            } > 0,
        ensures
            r == self.num_attention_heads / match self.num_key_value_heads {
                Some(n) => n,
                None => self.num_attention_heads,
            },
    {
        self.num_attention_heads / self.num_key_value_heads()
    }

    /// The number of positions: as configured, else the fallback.
    pub fn max_position_embeddings(&self) -> (r: usize)
        ensures
            r == match self.max_position_embeddings {
                Some(n) => n,
                None => self.max_position_embeddings_fallback,
            },
    {
        match self.max_position_embeddings {
            Some(n) => n,
            None => self.max_position_embeddings_fallback,
        }
    }
}

/// How a worker batches requests.
#[derive(Debug, Clone, Copy, PartialEq, Eq, Structural)]
pub struct BatchConfig {
    pub max_batch_size: usize,
    pub max_latency_ms: u64,
    pub enabled: bool,
}

impl Default for BatchConfig {
    /// Batches of up to 8 requests, waiting at most 5 ms; batching off.
    fn default() -> (r: BatchConfig)
        ensures
            r == (BatchConfig { max_batch_size: 8, max_latency_ms: 5, enabled: false }),
    {
        BatchConfig { max_batch_size: 8, max_latency_ms: 5, enabled: false }
    }
}

} // verus!
