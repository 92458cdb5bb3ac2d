use vstd::prelude::*;
use vstd::string::*;

use crate::config::ModelConfig;
use crate::text;
use crate::text::{append_decimal, same_text};

verus! {

/// A weight tensor in device memory.
#[derive(Debug)]
pub struct RawTensor {
    pub shape: Vec<usize>,
    pub dtype: String,
    /// Address of the data.
    pub device_ptr: u64,
    /// Size of the data.
    pub num_bytes: usize,
}

/// A tensor as a value.
#[verifier::ext_equal]
pub struct TensorView {
    pub shape: Seq<usize>,
    pub dtype: Seq<char>,
    pub device_ptr: u64,
    pub num_bytes: usize,
}

impl View for RawTensor {
    type V = TensorView;

    open spec fn view(&self) -> TensorView {
        TensorView {
            shape: self.shape@,
            dtype: self.dtype@,
            device_ptr: self.device_ptr,
            num_bytes: self.num_bytes,
        }
    }
}

/// Product of the first `n` extents.
pub open spec fn product(shape: Seq<usize>, n: nat) -> nat
    decreases n,
{
    if n == 0 {
        1
    } else {
        product(shape, (n - 1) as nat) * shape[n - 1] as nat
    }
}

impl TensorView {
    /// Number of elements.
    pub open spec fn elements(self) -> nat {
        product(self.shape, self.shape.len())
    }

    /// No partial product of the extents exceeds a machine word.
    pub open spec fn elements_fit(self) -> bool {
        forall|n: nat| n <= self.shape.len() ==> #[trigger] product(self.shape, n) <= usize::MAX
    }
}

impl RawTensor {
    /// Address of the data.
    pub fn device_ptr(&self) -> (r: u64)
        ensures
            r == self@.device_ptr,
    {
        self.device_ptr
    }

    /// Number of elements.
    pub fn num_elements(&self) -> (r: usize)
        requires
            self@.elements_fit(),
        ensures
            r == self@.elements(),
    {
        let mut r: usize = 1;
        let mut i: usize = 0;
        while i < self.shape.len()
            invariant
                i <= self.shape@.len(),
                self@.elements_fit(),
                r == product(self.shape@, i as nat),
            decreases self.shape@.len() - i,
        {
            assert(product(self@.shape, (i + 1) as nat) <= usize::MAX);
            r = r * self.shape[i];
            i = i + 1;
        }
        r
    }

    /// Size of the data.
    pub fn num_bytes(&self) -> (r: usize)
        ensures
            r == self@.num_bytes,
    {
        self.num_bytes
    }
}

/// Why weights cannot be used.
#[derive(Debug)]
pub enum WeightError {
    /// There is no tensor of this name.
    Missing(String),
    /// A tensor's elements are of this type, which is not supported.
    UnsupportedDtype(String),
}

/// The weights of a model, by name.
#[derive(Debug)]
pub struct ModelWeights {
    pub cfg: ModelConfig,
    pub names: Vec<String>,
    pub tensors: Vec<RawTensor>,
}

/// Name of a tensor of a layer.
pub open spec fn layer_name(layer: nat, suffix: Seq<char>) -> Seq<char> {
    "model.layers."@ + text::decimal(layer) + "."@ + suffix
}

/// Name of a tensor of a layer.
pub fn layer_tensor_name(layer: usize, suffix: &str) -> (r: String)
    ensures
        r@ == layer_name(layer as nat, suffix@),
{
    let mut name: String = "model.layers.".to_owned();
    append_decimal(&mut name, layer);
    name.append(".");
    name.append(suffix);
    name
}

impl View for ModelWeights {
    type V = Map<Seq<char>, TensorView>;

    open spec fn view(&self) -> Map<Seq<char>, TensorView> {
        Map::new(
            |name: Seq<char>| exists|i: int| 0 <= i < self.names@.len() && #[trigger] self.names@[i]@ == name,
            |name: Seq<char>| self.tensors@[self.index(name)]@,
        )
    }
}

impl ModelWeights {
    /// No name occurs twice, and each has a tensor.
    pub open spec fn wf(&self) -> bool {
        &&& self.names@.len() == self.tensors@.len()
        &&& forall|i: int, j: int|
            0 <= i < j < self.names@.len() ==> #[trigger] self.names@[i]@
                != #[trigger] self.names@[j]@
    }

    /// Where a name stands.
    pub open spec fn index(&self, name: Seq<char>) -> int {
        choose|i: int| 0 <= i < self.names@.len() && #[trigger] self.names@[i]@ == name
    }

    /// A name that stands at `i` is found there.
    proof fn lemma_at(&self, i: int)
        requires
            self.wf(),
            0 <= i < self.names@.len(),
        ensures
            self@.dom().contains(self.names@[i]@),
            self@[self.names@[i]@] == self.tensors@[i]@,
    {
        let name = self.names@[i]@;
        let j = self.index(name);
        assert(0 <= j < self.names@.len() && self.names@[j]@ == name);
        if i < j {
            assert(self.names@[i]@ != self.names@[j]@);
        } else if j < i {
            assert(self.names@[j]@ != self.names@[i]@);
        }
    }

    /// No weights.
    pub fn empty(cfg: ModelConfig) -> (r: Self)
        ensures
            r.wf(),
            r.cfg == cfg,
            r@ == Map::<Seq<char>, TensorView>::empty(),
    {
        let r = ModelWeights { cfg, names: Vec::new(), tensors: Vec::new() };
        assert(r@ =~= Map::<Seq<char>, TensorView>::empty());
        r
    }

    /// Where a name stands.
    fn find(&self, name: &str) -> (r: Option<usize>)
        requires
            self.wf(),
        ensures
            match r {
                Some(i) => i < self.names@.len() && self.names@[i as int]@ == name@,
                None => !self@.dom().contains(name@),
            },
    {
        let mut i: usize = 0;
        while i < self.names.len()
            invariant
                i <= self.names@.len(),
                forall|j: int| 0 <= j < i ==> (#[trigger] self.names@[j])@ != name@,
            decreases self.names@.len() - i,
        {
            if same_text(self.names[i].as_str(), name) {
                return Some(i);
            }
            i = i + 1;
        }
        None
    }

    /// Add a tensor; one of the same name is replaced.
    pub fn insert(&mut self, name: String, t: RawTensor)
        requires
            old(self).wf(),
        ensures
            final(self).wf(),
            final(self).cfg == old(self).cfg,
            final(self)@ == old(self)@.insert(name@, t@),
    {
        let ghost s = *self;
        match self.find(name.as_str()) {
            Some(i) => {
                self.tensors.set(i, t);
                proof {
                    let want = s@.insert(name@, t@);
                    assert forall|n: Seq<char>| self@.dom().contains(n) implies want.dom().contains(
                        n,
                    ) && self@[n] == want[n] by {
                        let k = self.index(n);
                        s.lemma_at(k);
                        self.lemma_at(k);
                        if n == name@ {
                            s.lemma_at(i as int);
                            self.lemma_at(i as int);
                        } else {
                            assert(k != i);
                        }
                    }
                    assert forall|n: Seq<char>| want.dom().contains(n) implies self@.dom().contains(
                        n,
                    ) by {
                        if n == name@ {
                            self.lemma_at(i as int);
                        } else {
                            let k = s.index(n);
                            assert(self.names@[k]@ == n);
                        }
                    }
                    assert(self@ =~= want);
                }
            },
            None => {
                self.names.push(name);
                self.tensors.push(t);
                proof {
                    let last = s.names@.len() as int;
                    let want = s@.insert(name@, t@);
                    assert(self.names@[last]@ == name@);
                    assert forall|i: int, j: int| 0 <= i < j < self.names@.len() implies (
                    #[trigger] self.names@[i])@ != (#[trigger] self.names@[j])@ by {
                        if j == last {
                            s.lemma_at(i);
                        }
                    }
                    assert forall|n: Seq<char>| self@.dom().contains(n) implies want.dom().contains(
                        n,
                    ) && self@[n] == want[n] by {
                        let k = self.index(n);
                        self.lemma_at(k);
                        if k < last {
                            s.lemma_at(k);
                        }
                    }
                    assert forall|n: Seq<char>| want.dom().contains(n) implies self@.dom().contains(
                        n,
                    ) by {
                        if n == name@ {
                            self.lemma_at(last);
                        } else {
                            let k = s.index(n);
                            assert(self.names@[k]@ == n);
                        }
                    }
                    assert(self@ =~= want);
                }
            },
        }
    }

    /// Bytes of the first `n` tensors.
    pub open spec fn bytes_of(&self, n: nat) -> nat
        decreases n,
    {
        if n == 0 {
            0
        } else {
            self.bytes_of((n - 1) as nat) + self.tensors@[n - 1].num_bytes as nat
        }
    }

    /// More tensors have no fewer bytes.
    proof fn lemma_bytes_monotone(&self, i: nat, n: nat)
        requires
            i <= n,
        ensures
            self.bytes_of(i) <= self.bytes_of(n),
        decreases n,
    {
        if i < n {
            self.lemma_bytes_monotone(i, (n - 1) as nat);
        }
    }

    /// Bytes of all tensors.
    pub fn total_bytes(&self) -> (r: usize)
        requires
            self.bytes_of(self.tensors@.len()) <= usize::MAX,
        ensures
            r == self.bytes_of(self.tensors@.len()),
    {
        let mut r: usize = 0;
        let mut i: usize = 0;
        while i < self.tensors.len()
            invariant
                i <= self.tensors@.len(),
                self.bytes_of(self.tensors@.len()) <= usize::MAX,
                r == self.bytes_of(i as nat),
            decreases self.tensors@.len() - i,
        {
            proof {
                self.lemma_bytes_monotone((i + 1) as nat, self.tensors@.len());
            }
            r = r + self.tensors[i].num_bytes;
            i = i + 1;
        }
        r
    }

    /// A tensor by its name.
    pub fn get(&self, name: &str) -> (r: Option<&RawTensor>)
        requires
            self.wf(),
        ensures
            r is Some <==> self@.dom().contains(name@),
            r matches Some(t) ==> t@ == self@[name@],
    {
        match self.find(name) {
            Some(i) => {
                proof {
                    self.lemma_at(i as int);
                }
                Some(&self.tensors[i])
            },
            None => None,
        }
    }

    /// A tensor of a layer by its suffix.
    pub fn layer_tensor(&self, layer: usize, suffix: &str) -> (r: Option<&RawTensor>)
        requires
            self.wf(),
        ensures
            r is Some <==> self@.dom().contains(layer_name(layer as nat, suffix@)),
            r matches Some(t) ==> t@ == self@[layer_name(layer as nat, suffix@)],
    {
        let name: String = layer_tensor_name(layer, suffix);
        self.get(name.as_str())
    }

    /// A tensor by its name, or an error that names it.
    pub fn try_get(&self, name: &str) -> (r: Result<&RawTensor, WeightError>)
        requires
            self.wf(),
        ensures
            match r {
                Ok(t) => self@.dom().contains(name@) && t@ == self@[name@],
                Err(e) => {
                    &&& !self@.dom().contains(name@)
                    &&& e matches WeightError::Missing(n)
                    &&& n@ == name@
                },
            },
    {
        match self.get(name) {
            Some(t) => Ok(t),
            None => Err(WeightError::Missing(name.to_owned())),
        }
    }

    /// A tensor of a layer by its suffix, or an error that names it.
    pub fn try_layer(&self, layer: usize, suffix: &str) -> (r: Result<&RawTensor, WeightError>)
        requires
            self.wf(),
        ensures
            match r {
                Ok(t) => {
                    &&& self@.dom().contains(layer_name(layer as nat, suffix@))
                    &&& t@ == self@[layer_name(layer as nat, suffix@)]
                },
                Err(e) => {
                    &&& !self@.dom().contains(layer_name(layer as nat, suffix@))
                    &&& e matches WeightError::Missing(n)
                    &&& n@ == layer_name(layer as nat, suffix@)
                },
            },
    {
        match self.layer_tensor(layer, suffix) {
            Some(t) => Ok(t),
            None => Err(WeightError::Missing(layer_tensor_name(layer, suffix))),
        }
    }
}

/// Tensors of different layers have different names.
pub proof fn law_layer_names_distinct(a: nat, b: nat, suffix: Seq<char>)
    requires
        layer_name(a, suffix) == layer_name(b, suffix),
    ensures
        a == b,
{
    let p = "model.layers."@;
    let x = layer_name(a, suffix);
    let y = layer_name(b, suffix);
    let da = text::decimal(a);
    let db = text::decimal(b);
    assert(x.len() == p.len() + da.len() + "."@.len() + suffix.len());
    assert(y.len() == p.len() + db.len() + "."@.len() + suffix.len());
    assert(x.subrange(p.len() as int, (p.len() + da.len()) as int) =~= da);
    assert(y.subrange(p.len() as int, (p.len() + db.len()) as int) =~= db);
    lemma_decimal_injective(a, b);
}

/// Different numbers have different digits.
proof fn lemma_decimal_injective(a: nat, b: nat)
    requires
        text::decimal(a) == text::decimal(b),
    ensures
        a == b,
    decreases a + b,
{
    if a >= 10 && b >= 10 {
        assert(text::decimal(a).drop_last() =~= text::decimal(a / 10));
        assert(text::decimal(b).drop_last() =~= text::decimal(b / 10));
        assert(text::decimal(a).last() == text::digit((a % 10) as int));
        assert(text::decimal(b).last() == text::digit((b % 10) as int));
        lemma_decimal_injective(a / 10, b / 10);
    } else if a >= 10 {
        lemma_decimal_len(a / 10);
        assert(text::decimal(a).len() >= 2);
        assert(text::decimal(b).len() == 1);
    } else if b >= 10 {
        lemma_decimal_len(b / 10);
        assert(text::decimal(b).len() >= 2);
        assert(text::decimal(a).len() == 1);
    } else {
        assert(text::decimal(a)[0] == text::digit(a as int));
        assert(text::decimal(b)[0] == text::digit(b as int));
    }
}

/// A number has a digit.
proof fn lemma_decimal_len(n: nat)
    ensures
        text::decimal(n).len() >= 1,
    decreases n,
{
    if n >= 10 {
        lemma_decimal_len(n / 10);
    }
}

} // verus!
