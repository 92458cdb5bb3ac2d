use vstd::prelude::*;
use vstd::string::*;

use crate::config::ModelConfig;
use crate::model::name_laws;
use crate::model::weights;
use crate::model::weights::{ModelWeights, RawTensor, TensorView, WeightError};
use crate::text;
use crate::text::{has_text, lower_text};

verus! {

/// Where a weight tensor lies in device memory.
#[derive(Debug, Clone, Copy, PartialEq, Eq, Structural)]
pub struct TensorRef {
    pub ptr: u64,
    /// Number of elements.
    pub len: usize,
}

/// The weights of one layer.
#[derive(Debug, Clone, Copy, PartialEq, Eq, Structural)]
pub struct LayerWeights {
    pub input_layernorm: TensorRef,
    pub q_proj: TensorRef,
    pub k_proj: TensorRef,
    pub v_proj: TensorRef,
    pub o_proj: TensorRef,
    pub post_attention_layernorm: TensorRef,
    pub gate_proj: TensorRef,
    pub up_proj: TensorRef,
    pub down_proj: TensorRef,
}

/// Number of tensors of a layer.
pub const LAYER_TENSORS: usize = 9;

/// Name, within its layer, of a layer's tensor.
pub open spec fn suffix_of(k: int) -> Seq<char> {
    if k == 0 {
        "input_layernorm.weight"@
    } else if k == 1 {
        "self_attn.q_proj.weight"@
    } else if k == 2 {
        "self_attn.k_proj.weight"@
    } else if k == 3 {
        "self_attn.v_proj.weight"@
    } else if k == 4 {
        "self_attn.o_proj.weight"@
    } else if k == 5 {
        "post_attention_layernorm.weight"@
    } else if k == 6 {
        "mlp.gate_proj.weight"@
    } else if k == 7 {
        "mlp.up_proj.weight"@
    } else {
        "mlp.down_proj.weight"@
    }
}

/// Name, within its layer, of a layer's tensor.
fn layer_suffix(k: usize) -> (r: &'static str)
    requires
        k < LAYER_TENSORS,
    ensures
        r@ == suffix_of(k as int),
{
    match k {
        0 => "input_layernorm.weight",
        1 => "self_attn.q_proj.weight",
        2 => "self_attn.k_proj.weight",
        3 => "self_attn.v_proj.weight",
        4 => "self_attn.o_proj.weight",
        5 => "post_attention_layernorm.weight",
        6 => "mlp.gate_proj.weight",
        7 => "mlp.up_proj.weight",
        _ => "mlp.down_proj.weight",
    }
}

/// Name of a layer's tensor.
pub open spec fn name_of(layer: nat, k: int) -> Seq<char> {
    weights::layer_name(layer, suffix_of(k))
}

/// Whether elements of a type are read as half-precision numbers.
pub open spec fn dtype_supported(dtype: Seq<char>) -> bool {
    ||| text::contains_text(text::lower(dtype), "f16"@)
    ||| text::contains_text(text::lower(dtype), "float16"@)
    ||| text::contains_text(text::lower(dtype), "bf16"@)
}

/// Check that elements of a type are read as half-precision numbers.
pub fn check_dtype(dtype: &str) -> (r: Result<(), WeightError>)
    ensures
        match r {
            Ok(()) => dtype_supported(dtype@),
            Err(e) => {
                &&& !dtype_supported(dtype@)
                &&& e matches WeightError::UnsupportedDtype(d)
                &&& d@ == dtype@
            },
        },
{
    let lower: String = lower_text(dtype);
    if has_text(lower.as_str(), "f16") || has_text(lower.as_str(), "float16") || has_text(
        lower.as_str(),
        "bf16",
    ) {
        Ok(())
    } else {
        Err(WeightError::UnsupportedDtype(dtype.to_owned()))
    }
}

/// Whether elements of a type have to be converted before use.
pub open spec fn is_bfloat(dtype: Seq<char>) -> bool {
    text::contains_text(text::lower(dtype), "bf16"@)
}

/// Whether a tensor's elements have to be converted before use.
pub fn needs_conversion(t: &RawTensor) -> (r: bool)
    ensures
        r == is_bfloat(t@.dtype),
{
    let lower: String = lower_text(t.dtype.as_str());
    has_text(lower.as_str(), "bf16")
}

/// The weights that a forward step reads.
#[derive(Debug)]
pub struct LlamaWeights {
    pub layers: Vec<LayerWeights>,
    pub norm: TensorRef,
    pub lm_head: TensorRef,
    /// Address of the token embeddings.
    pub embed_ptr: u64,
}

/// Where the tensor of a name lies.
pub open spec fn ref_of(m: Map<Seq<char>, TensorView>, name: Seq<char>) -> TensorRef {
    TensorRef { ptr: m[name].device_ptr, len: m[name].elements() as usize }
}

/// Where the tensors of a layer lie.
pub open spec fn layer_refs(m: Map<Seq<char>, TensorView>, layer: nat) -> LayerWeights {
    LayerWeights {
        input_layernorm: ref_of(m, name_of(layer, 0)),
        q_proj: ref_of(m, name_of(layer, 1)),
        k_proj: ref_of(m, name_of(layer, 2)),
        v_proj: ref_of(m, name_of(layer, 3)),
        o_proj: ref_of(m, name_of(layer, 4)),
        post_attention_layernorm: ref_of(m, name_of(layer, 5)),
        gate_proj: ref_of(m, name_of(layer, 6)),
        up_proj: ref_of(m, name_of(layer, 7)),
        down_proj: ref_of(m, name_of(layer, 8)),
    }
}

/// All tensors of the layers before `layer`, and the first `k` of `layer`, are
/// there.
pub open spec fn present_before(m: Map<Seq<char>, TensorView>, layer: int, k: int) -> bool {
    &&& forall|l: nat, j: int|
        l < layer && 0 <= j < LAYER_TENSORS ==> m.dom().contains(#[trigger] name_of(l, j))
    &&& forall|j: int| 0 <= j < k ==> m.dom().contains(#[trigger] name_of(layer as nat, j))
}

/// Tensor `k` of layer `layer`, named `name`, is the first that is missing.
pub open spec fn first_missing(
    m: Map<Seq<char>, TensorView>,
    name: Seq<char>,
    layer: int,
    k: int,
) -> bool {
    &&& 0 <= k < LAYER_TENSORS
    &&& name == name_of(layer as nat, k)
    &&& !m.dom().contains(name)
    &&& present_before(m, layer, k)
}

/// The error of a tensor that is missing or whose elements are not supported.
pub open spec fn tensor_error(
    m: Map<Seq<char>, TensorView>,
    name: Seq<char>,
    e: WeightError,
) -> bool {
    if !m.dom().contains(name) {
        e matches WeightError::Missing(n) && n@ == name
    } else {
        &&& !dtype_supported(m[name].dtype)
        &&& e matches WeightError::UnsupportedDtype(d)
        &&& d@ == m[name].dtype
    }
}

/// A tensor is there and its elements are supported.
pub open spec fn tensor_usable(m: Map<Seq<char>, TensorView>, name: Seq<char>) -> bool {
    m.dom().contains(name) && dtype_supported(m[name].dtype)
}

impl LlamaWeights {
    /// Find a tensor whose elements have to be supported.
    fn checked_ref(w: &ModelWeights, name: &str) -> (r: Result<TensorRef, WeightError>)
        requires
            w.wf(),
            forall|n: Seq<char>| #[trigger] w@.dom().contains(n) ==> w@[n].elements_fit(),
        ensures
            match r {
                Ok(t) => tensor_usable(w@, name@) && t == ref_of(w@, name@),
                Err(e) => !tensor_usable(w@, name@) && tensor_error(w@, name@, e),
            },
    {
        match w.try_get(name) {
            Ok(t) => match check_dtype(t.dtype.as_str()) {
                Ok(()) => Ok(TensorRef { ptr: t.device_ptr(), len: t.num_elements() }),
                Err(e) => Err(e),
            },
            Err(e) => Err(e),
        }
    }

    /// Find the tensors of a layer. The error names the first that is missing.
    fn layer(w: &ModelWeights, layer: usize) -> (r: Result<LayerWeights, WeightError>)
        requires
            w.wf(),
            forall|n: Seq<char>| #[trigger] w@.dom().contains(n) ==> w@[n].elements_fit(),
        ensures
            match r {
                Ok(lw) => {
                    &&& forall|j: int|
                        0 <= j < LAYER_TENSORS ==> w@.dom().contains(
                            #[trigger] name_of(layer as nat, j),
                        )
                    &&& lw == layer_refs(w@, layer as nat)
                },
                Err(e) => {
                    &&& e matches WeightError::Missing(n)
                    &&& exists|k: int|
                        0 <= k < LAYER_TENSORS && n@ == #[trigger] name_of(layer as nat, k)
                            && !w@.dom().contains(n@) && forall|j: int|
                            0 <= j < k ==> w@.dom().contains(#[trigger] name_of(layer as nat, j))
                },
            },
    {
        let mut refs: Vec<TensorRef> = Vec::new();
        let mut k: usize = 0;
        while k < LAYER_TENSORS
            invariant
                k <= LAYER_TENSORS,
                w.wf(),
                forall|n: Seq<char>| #[trigger] w@.dom().contains(n) ==> w@[n].elements_fit(),
                refs@.len() == k,
                forall|j: int|
                    0 <= j < k ==> w@.dom().contains(#[trigger] name_of(layer as nat, j))
                        && refs@[j] == ref_of(w@, name_of(layer as nat, j)),
            decreases LAYER_TENSORS - k,
        {
            match w.try_layer(layer, layer_suffix(k)) {
                Ok(t) => {
                    assert(w@.dom().contains(name_of(layer as nat, k as int)));
                    refs.push(TensorRef { ptr: t.device_ptr(), len: t.num_elements() });
                },
                Err(e) => {
                    assert(!w@.dom().contains(name_of(layer as nat, k as int)));
                    return Err(e);
                },
            }
            k = k + 1;
        }
        proof {
            assert forall|j: int| 0 <= j < LAYER_TENSORS implies refs@[j] == ref_of(
                w@,
                #[trigger] name_of(layer as nat, j),
            ) by {}
            assert(refs@[0] == ref_of(w@, name_of(layer as nat, 0)));
            assert(refs@[1] == ref_of(w@, name_of(layer as nat, 1)));
            assert(refs@[2] == ref_of(w@, name_of(layer as nat, 2)));
            assert(refs@[3] == ref_of(w@, name_of(layer as nat, 3)));
            assert(refs@[4] == ref_of(w@, name_of(layer as nat, 4)));
            assert(refs@[5] == ref_of(w@, name_of(layer as nat, 5)));
            assert(refs@[6] == ref_of(w@, name_of(layer as nat, 6)));
            assert(refs@[7] == ref_of(w@, name_of(layer as nat, 7)));
            assert(refs@[8] == ref_of(w@, name_of(layer as nat, 8)));
        }
        Ok(
            LayerWeights {
                input_layernorm: refs[0],
                q_proj: refs[1],
                k_proj: refs[2],
                v_proj: refs[3],
                o_proj: refs[4],
                post_attention_layernorm: refs[5],
                gate_proj: refs[6],
                up_proj: refs[7],
                down_proj: refs[8],
            },
        )
    }

    /// Find all tensors that a forward step reads: embeddings, norm and head,
    /// whose elements have to be supported; then the layers, one by one. The
    /// error is that of the first tensor that cannot be used.
    pub fn resolve(cfg: &ModelConfig, w: &ModelWeights) -> (r: Result<Self, WeightError>)
        requires
            w.wf(),
            forall|n: Seq<char>| #[trigger] w@.dom().contains(n) ==> w@[n].elements_fit(),
        ensures
            ({
                let m = w@;
                let embed = "model.embed_tokens.weight"@;
                let norm = "model.norm.weight"@;
                let head = "lm_head.weight"@;
                match r {
                    Ok(lw) => {
                        &&& tensor_usable(m, embed)
                        &&& tensor_usable(m, norm)
                        &&& tensor_usable(m, head)
                        &&& present_before(m, cfg.num_hidden_layers as int, 0)
                        &&& lw.embed_ptr == m[embed].device_ptr
                        &&& lw.norm == ref_of(m, norm)
                        &&& lw.lm_head == ref_of(m, head)
                        &&& lw.layers@ == Seq::new(
                            cfg.num_hidden_layers as nat,
                            |l: int| layer_refs(m, l as nat),
                        )
                        &&& forall|l: int|
                            0 <= l < cfg.num_hidden_layers ==> name_laws::named_layer(
                                m,
                                l as nat,
                                #[trigger] lw.layers@[l],
                            )
                    },
                    Err(e) => if !tensor_usable(m, embed) {
                        tensor_error(m, embed, e)
                    } else if !tensor_usable(m, norm) {
                        tensor_error(m, norm, e)
                    } else if !tensor_usable(m, head) {
                        tensor_error(m, head, e)
                    } else {
                        &&& e matches WeightError::Missing(n)
                        &&& exists|l: int, k: int|
                            0 <= l < cfg.num_hidden_layers && #[trigger] first_missing(m, n@, l, k)
                    },
                }
            }),
    {
        let embed: TensorRef = match Self::checked_ref(w, "model.embed_tokens.weight") {
            Ok(t) => t,
            Err(e) => {
                return Err(e);
            },
        };
        let norm: TensorRef = match Self::checked_ref(w, "model.norm.weight") {
            Ok(t) => t,
            Err(e) => {
                return Err(e);
            },
        };
        let lm_head: TensorRef = match Self::checked_ref(w, "lm_head.weight") {
            Ok(t) => t,
            Err(e) => {
                return Err(e);
            },
        };
        let mut layers: Vec<LayerWeights> = Vec::new();
        let mut l: usize = 0;
        while l < cfg.num_hidden_layers
            invariant
                l <= cfg.num_hidden_layers,
                w.wf(),
                forall|n: Seq<char>| #[trigger] w@.dom().contains(n) ==> w@[n].elements_fit(),
                tensor_usable(w@, "model.embed_tokens.weight"@),
                tensor_usable(w@, "model.norm.weight"@),
                tensor_usable(w@, "lm_head.weight"@),
                present_before(w@, l as int, 0),
                layers@ == Seq::new(l as nat, |i: int| layer_refs(w@, i as nat)),
            decreases cfg.num_hidden_layers - l,
        {
            match Self::layer(w, l) {
                Ok(lw) => {
                    layers.push(lw);
                    proof {
                        assert forall|i: nat, j: int|
                            i < l + 1 && 0 <= j < LAYER_TENSORS implies w@.dom().contains(
                            #[trigger] name_of(i, j),
                        ) by {
                            if i == l {
                                assert(w@.dom().contains(name_of(l as nat, j)));
                            }
                        }
                    }
                },
                Err(e) => {
                    proof {
                        let n = e->Missing_0;
                        let k = choose|k: int|
                            0 <= k < LAYER_TENSORS && n@ == #[trigger] name_of(l as nat, k)
                                && !w@.dom().contains(n@) && forall|j: int|
                                0 <= j < k ==> w@.dom().contains(#[trigger] name_of(l as nat, j));
                        assert(first_missing(w@, n@, l as int, k));
                    }
                    return Err(e);
                },
            }
            l = l + 1;
        }
        proof {
            assert forall|i: int| 0 <= i < cfg.num_hidden_layers implies name_laws::named_layer(
                w@,
                i as nat,
                #[trigger] layers@[i],
            ) by {
                name_laws::law_layer_tensors_by_name(w@, i as nat);
            }
        }
        Ok(LlamaWeights { layers, norm, lm_head, embed_ptr: embed.ptr })
    }
}

} // verus!
