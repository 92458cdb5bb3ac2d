use vstd::prelude::*;

use crate::model::llama_transformer;
use crate::model::llama_transformer::{LayerWeights, TensorRef};
use crate::model::weights;
use crate::model::weights::{TensorView, WeightError};
use crate::text;

verus! {

/// A reference names the data of a tensor and all its elements.
pub open spec fn refers_to(r: TensorRef, t: TensorView) -> bool {
    r.ptr == t.device_ptr && r.len == weights::product(t.shape, t.shape.len()) as usize
}

/// The tensor of a layer that a checkpoint lists under the layer's number and
/// the given rest of the name.
pub open spec fn in_layer(
    m: Map<Seq<char>, TensorView>,
    layer: nat,
    rest: Seq<char>,
) -> TensorView {
    m["model.layers."@ + text::decimal(layer) + rest]
}

/// The weights `w` of a layer are the tensors that checkpoints list under
/// their names.
pub open spec fn named_layer(
    m: Map<Seq<char>, TensorView>,
    layer: nat,
    w: LayerWeights,
) -> bool {
    &&& refers_to(w.input_layernorm, in_layer(m, layer, ".input_layernorm.weight"@))
    &&& refers_to(w.q_proj, in_layer(m, layer, ".self_attn.q_proj.weight"@))
    &&& refers_to(w.k_proj, in_layer(m, layer, ".self_attn.k_proj.weight"@))
    &&& refers_to(w.v_proj, in_layer(m, layer, ".self_attn.v_proj.weight"@))
    &&& refers_to(w.o_proj, in_layer(m, layer, ".self_attn.o_proj.weight"@))
    &&& refers_to(
        w.post_attention_layernorm,
        in_layer(m, layer, ".post_attention_layernorm.weight"@),
    )
    &&& refers_to(w.gate_proj, in_layer(m, layer, ".mlp.gate_proj.weight"@))
    &&& refers_to(w.up_proj, in_layer(m, layer, ".mlp.up_proj.weight"@))
    &&& refers_to(w.down_proj, in_layer(m, layer, ".mlp.down_proj.weight"@))
}

/// Each weight of a layer is the tensor that checkpoints list under its name.
pub proof fn law_layer_tensors_by_name(m: Map<Seq<char>, TensorView>, layer: nat)
    ensures
        named_layer(m, layer, llama_transformer::layer_refs(m, layer)),
{
    lemma_layer_name_input_norm(layer);
    lemma_layer_name_q(layer);
    lemma_layer_name_k(layer);
    lemma_layer_name_v(layer);
    lemma_layer_name_o(layer);
    lemma_layer_name_post_norm(layer);
    lemma_layer_name_gate(layer);
    lemma_layer_name_up(layer);
    lemma_layer_name_down(layer);
}

proof fn lemma_layer_name_input_norm(layer: nat)
    ensures
        llama_transformer::name_of(layer, 0) == "model.layers."@ + text::decimal(layer)
            + ".input_layernorm.weight"@,
{
    reveal_strlit(".");
    reveal_strlit("input_layernorm.weight");
    reveal_strlit(".input_layernorm.weight");
    assert("."@ + "input_layernorm.weight"@ =~= ".input_layernorm.weight"@);
    assert(llama_transformer::name_of(layer, 0) =~= "model.layers."@ + text::decimal(layer) + (
    "."@ + "input_layernorm.weight"@));
}

proof fn lemma_layer_name_q(layer: nat)
    ensures
        llama_transformer::name_of(layer, 1) == "model.layers."@ + text::decimal(layer)
            + ".self_attn.q_proj.weight"@,
{
    reveal_strlit(".");
    reveal_strlit("self_attn.q_proj.weight");
    reveal_strlit(".self_attn.q_proj.weight");
    assert("."@ + "self_attn.q_proj.weight"@ =~= ".self_attn.q_proj.weight"@);
    assert(llama_transformer::name_of(layer, 1) =~= "model.layers."@ + text::decimal(layer) + (
    "."@ + "self_attn.q_proj.weight"@));
}

proof fn lemma_layer_name_k(layer: nat)
    ensures
        llama_transformer::name_of(layer, 2) == "model.layers."@ + text::decimal(layer)
            + ".self_attn.k_proj.weight"@,
{
    reveal_strlit(".");
    reveal_strlit("self_attn.k_proj.weight");
    reveal_strlit(".self_attn.k_proj.weight");
    assert("."@ + "self_attn.k_proj.weight"@ =~= ".self_attn.k_proj.weight"@);
    assert(llama_transformer::name_of(layer, 2) =~= "model.layers."@ + text::decimal(layer) + (
    "."@ + "self_attn.k_proj.weight"@));
}

proof fn lemma_layer_name_v(layer: nat)
    ensures
        llama_transformer::name_of(layer, 3) == "model.layers."@ + text::decimal(layer)
            + ".self_attn.v_proj.weight"@,
{
    reveal_strlit(".");
    reveal_strlit("self_attn.v_proj.weight");
    reveal_strlit(".self_attn.v_proj.weight");
    assert("."@ + "self_attn.v_proj.weight"@ =~= ".self_attn.v_proj.weight"@);
    assert(llama_transformer::name_of(layer, 3) =~= "model.layers."@ + text::decimal(layer) + (
    "."@ + "self_attn.v_proj.weight"@));
}

proof fn lemma_layer_name_o(layer: nat)
    ensures
        llama_transformer::name_of(layer, 4) == "model.layers."@ + text::decimal(layer)
            + ".self_attn.o_proj.weight"@,
{
    reveal_strlit(".");
    reveal_strlit("self_attn.o_proj.weight");
    reveal_strlit(".self_attn.o_proj.weight");
    assert("."@ + "self_attn.o_proj.weight"@ =~= ".self_attn.o_proj.weight"@);
    assert(llama_transformer::name_of(layer, 4) =~= "model.layers."@ + text::decimal(layer) + (
    "."@ + "self_attn.o_proj.weight"@));
}

proof fn lemma_layer_name_post_norm(layer: nat)
    ensures
        llama_transformer::name_of(layer, 5) == "model.layers."@ + text::decimal(layer)
            + ".post_attention_layernorm.weight"@,
{
    reveal_strlit(".");
    reveal_strlit("post_attention_layernorm.weight");
    reveal_strlit(".post_attention_layernorm.weight");
    assert("."@ + "post_attention_layernorm.weight"@ =~= ".post_attention_layernorm.weight"@);
    assert(llama_transformer::name_of(layer, 5) =~= "model.layers."@ + text::decimal(layer) + (
    "."@ + "post_attention_layernorm.weight"@));
}

proof fn lemma_layer_name_gate(layer: nat)
    ensures
        llama_transformer::name_of(layer, 6) == "model.layers."@ + text::decimal(layer)
            + ".mlp.gate_proj.weight"@,
{
    reveal_strlit(".");
    reveal_strlit("mlp.gate_proj.weight");
    reveal_strlit(".mlp.gate_proj.weight");
    assert("."@ + "mlp.gate_proj.weight"@ =~= ".mlp.gate_proj.weight"@);
    assert(llama_transformer::name_of(layer, 6) =~= "model.layers."@ + text::decimal(layer) + (
    "."@ + "mlp.gate_proj.weight"@));
}

proof fn lemma_layer_name_up(layer: nat)
    ensures
        llama_transformer::name_of(layer, 7) == "model.layers."@ + text::decimal(layer)
            + ".mlp.up_proj.weight"@,
{
    reveal_strlit(".");
    reveal_strlit("mlp.up_proj.weight");
    reveal_strlit(".mlp.up_proj.weight");
    assert("."@ + "mlp.up_proj.weight"@ =~= ".mlp.up_proj.weight"@);
    assert(llama_transformer::name_of(layer, 7) =~= "model.layers."@ + text::decimal(layer) + (
    "."@ + "mlp.up_proj.weight"@));
}

proof fn lemma_layer_name_down(layer: nat)
    ensures
        llama_transformer::name_of(layer, 8) == "model.layers."@ + text::decimal(layer)
            + ".mlp.down_proj.weight"@,
{
    reveal_strlit(".");
    reveal_strlit("mlp.down_proj.weight");
    reveal_strlit(".mlp.down_proj.weight");
    assert("."@ + "mlp.down_proj.weight"@ =~= ".mlp.down_proj.weight"@);
    assert(llama_transformer::name_of(layer, 8) =~= "model.layers."@ + text::decimal(layer) + (
    "."@ + "mlp.down_proj.weight"@));
}

/// The number that decimal digits stand for.
pub open spec fn read_decimal(digits: Seq<char>) -> int
    decreases digits.len(),
{
    if digits.len() == 0 {
        0
    } else {
        10 * read_decimal(digits.drop_last()) + (digits.last() as int - '0' as int)
    }
}

/// A number written in decimal reads as that number. It is made of digits,
/// and of as few as there can be.
pub proof fn law_decimal_reads_back(n: nat)
    ensures
        read_decimal(text::decimal(n)) == n,
        text::decimal(n).len() > 0,
        forall|i: int|
            0 <= i < text::decimal(n).len() ==> '0' <= #[trigger] text::decimal(n)[i] <= '9',
        text::decimal(n).len() > 1 ==> text::decimal(n)[0] != '0',
    decreases n,
{
    let d = text::decimal(n);
    if n < 10 {
        assert(d.drop_last() =~= Seq::<char>::empty());
        assert(d.last() == text::digit(n as int));
        assert(read_decimal(d.drop_last()) == 0);
    } else {
        law_decimal_reads_back(n / 10);
        let head = text::decimal(n / 10);
        assert(d.drop_last() =~= head);
        assert(d.last() == text::digit((n % 10) as int));
        assert forall|i: int| 0 <= i < d.len() implies '0' <= #[trigger] d[i] <= '9' by {
            if i < head.len() {
                assert(d[i] == head[i]);
            }
        }
        assert(d[0] == head[0]);
        if head.len() == 1 {
            assert(head.drop_last() =~= Seq::<char>::empty());
            assert(read_decimal(head.drop_last()) == 0);
            assert(head[0] == head.last());
            assert(n / 10 > 0);
        }
    }
}

/// The number of elements of a tensor: a scalar has one, a vector as many as
/// it is long, and a further extent multiplies.
pub proof fn law_elements_multiply(shape: Seq<usize>, more: Seq<usize>)
    ensures
        weights::product(Seq::<usize>::empty(), 0) == 1,
        forall|x: usize| #[trigger] weights::product(seq![x], 1) == x,
        weights::product(shape + more, (shape + more).len()) == weights::product(
            shape,
            shape.len(),
        ) * weights::product(more, more.len()),
    decreases more.len(),
{
    assert forall|x: usize| #[trigger] weights::product(seq![x], 1) == x by {
        reveal_with_fuel(weights::product, 2);
        assert(seq![x][0] == x);
    }
    lemma_product_parts(shape, more, more.len());
    let all = shape + more;
    assert(all.len() == shape.len() + more.len());
}

proof fn lemma_product_parts(shape: Seq<usize>, more: Seq<usize>, n: nat)
    requires
        n <= more.len(),
    ensures
        weights::product(shape + more, shape.len() + n) == weights::product(shape, shape.len())
            * weights::product(more, n),
    decreases n,
{
    let all = shape + more;
    let p = weights::product(shape, shape.len());
    if n == 0 {
        lemma_product_prefix(shape, more, shape.len());
        assert(p * 1 == p);
    } else {
        lemma_product_parts(shape, more, (n - 1) as nat);
        let x = more[n - 1] as nat;
        let q = weights::product(more, (n - 1) as nat);
        assert(all[shape.len() + n - 1] == more[n - 1]);
        assert(weights::product(all, shape.len() + n) == weights::product(
            all,
            (shape.len() + n - 1) as nat,
        ) * x);
        assert((p * q) * x == p * (q * x)) by (nonlinear_arith);
    }
}

proof fn lemma_product_prefix(shape: Seq<usize>, more: Seq<usize>, n: nat)
    requires
        n <= shape.len(),
    ensures
        weights::product(shape + more, n) == weights::product(shape, n),
    decreases n,
{
    if n > 0 {
        lemma_product_prefix(shape, more, (n - 1) as nat);
        assert((shape + more)[n - 1] == shape[n - 1]);
    }
}

/// The weights are loaded for `n` layers exactly where each of these layers
/// has all its tensors under their names.
pub proof fn law_layers_are_complete(m: Map<Seq<char>, TensorView>, n: nat)
    ensures
        llama_transformer::present_before(m, n as int, 0) <==> forall|l: nat|
            l < n ==> #[trigger] has_layer(m, l),
{
    assert forall|l: nat| #[trigger] has_layer(m, l) <==> (forall|j: int|
        0 <= j < 9 ==> m.dom().contains(#[trigger] llama_transformer::name_of(l, j))) by {
        lemma_layer_name_input_norm(l);
        lemma_layer_name_q(l);
        lemma_layer_name_k(l);
        lemma_layer_name_v(l);
        lemma_layer_name_o(l);
        lemma_layer_name_post_norm(l);
        lemma_layer_name_gate(l);
        lemma_layer_name_up(l);
        lemma_layer_name_down(l);
        if forall|j: int|
            0 <= j < 9 ==> m.dom().contains(#[trigger] llama_transformer::name_of(l, j)) {
            assert(m.dom().contains(llama_transformer::name_of(l, 0)));
            assert(m.dom().contains(llama_transformer::name_of(l, 1)));
            assert(m.dom().contains(llama_transformer::name_of(l, 2)));
            assert(m.dom().contains(llama_transformer::name_of(l, 3)));
            assert(m.dom().contains(llama_transformer::name_of(l, 4)));
            assert(m.dom().contains(llama_transformer::name_of(l, 5)));
            assert(m.dom().contains(llama_transformer::name_of(l, 6)));
            assert(m.dom().contains(llama_transformer::name_of(l, 7)));
            assert(m.dom().contains(llama_transformer::name_of(l, 8)));
        }
    }
    if forall|l: nat| l < n ==> #[trigger] has_layer(m, l) {
        assert forall|l: nat, j: int|
            l < n && 0 <= j < llama_transformer::LAYER_TENSORS implies m.dom().contains(
            #[trigger] llama_transformer::name_of(l, j),
        ) by {
            assert(has_layer(m, l));
        }
    }
    if llama_transformer::present_before(m, n as int, 0) {
        assert forall|l: nat| l < n implies #[trigger] has_layer(m, l) by {
            assert(forall|j: int|
                0 <= j < 9 ==> m.dom().contains(#[trigger] llama_transformer::name_of(l, j)));
        }
    }
}

/// The checkpoint lists a tensor of the layer under the given rest of its name.
pub open spec fn lists(m: Map<Seq<char>, TensorView>, layer: nat, rest: Seq<char>) -> bool {
    m.dom().contains("model.layers."@ + text::decimal(layer) + rest)
}

/// The checkpoint lists all tensors of a layer.
pub open spec fn has_layer(m: Map<Seq<char>, TensorView>, layer: nat) -> bool {
    &&& lists(m, layer, ".input_layernorm.weight"@)
    &&& lists(m, layer, ".self_attn.q_proj.weight"@)
    &&& lists(m, layer, ".self_attn.k_proj.weight"@)
    &&& lists(m, layer, ".self_attn.v_proj.weight"@)
    &&& lists(m, layer, ".self_attn.o_proj.weight"@)
    &&& lists(m, layer, ".post_attention_layernorm.weight"@)
    &&& lists(m, layer, ".mlp.gate_proj.weight"@)
    &&& lists(m, layer, ".mlp.up_proj.weight"@)
    &&& lists(m, layer, ".mlp.down_proj.weight"@)
}

/// A tensor can be used where the checkpoint lists it in half precision; if
/// it is not listed the error names it, and else its type.
pub proof fn law_unusable_tensors_are_named(
    m: Map<Seq<char>, TensorView>,
    name: Seq<char>,
    e: WeightError,
)
    ensures
        llama_transformer::tensor_usable(m, name) ==> m.dom().contains(name)
            && llama_transformer::dtype_supported(m[name].dtype)
            && !llama_transformer::tensor_error(m, name, e),
        !llama_transformer::tensor_usable(m, name) && llama_transformer::tensor_error(m, name, e)
            ==> {
            &&& !m.dom().contains(name) ==> (e matches WeightError::Missing(n) && n@ == name)
            &&& m.dom().contains(name) ==> (e matches WeightError::UnsupportedDtype(d) && d@
                == m[name].dtype)
        },
        !m.dom().contains(name) || !llama_transformer::dtype_supported(m[name].dtype)
            ==> !llama_transformer::tensor_usable(m, name),
{
}

} // verus!
