use vstd::prelude::*;

use candle_core::Tensor;

verus! {

#[verifier::external_type_specification]
#[verifier::external_body]
pub struct ExTensor(candle_core::Tensor);

#[verifier::external_type_specification]
#[verifier::external_body]
pub struct ExCandleError(candle_core::Error);

/// The shape of a tensor: its size along each axis (`Tensor::dims`).
pub uninterp spec fn tensor_dims(t: Tensor) -> Seq<usize>;

/// Where the elements of a tensor start in its storage (`Tensor::layout().start_offset()`).
pub uninterp spec fn tensor_offset(t: Tensor) -> int;

/// How far apart in storage neighbouring elements lie along each axis (`Tensor::stride`).
pub uninterp spec fn tensor_strides(t: Tensor) -> Seq<usize>;

/// The size of `t` along axis `d`, by `Tensor::dim`: an error when `t` has no such axis.
#[verifier::external_body]
pub(crate) fn tensor_dim(t: &Tensor, d: usize) -> (r: Result<usize, candle_core::Error>)
    ensures
        r is Ok <==> d < tensor_dims(*t).len(),
        r matches Ok(n) ==> n == tensor_dims(*t)[d as int],
{
    t.dim(d)
}

/// The keys and values cached for one layer.
pub struct Cache {
    pub k: Tensor,
    pub v: Tensor,
}

/// The cached keys and values of each layer of a model, layer by layer.
pub struct KvCache {
    layers: Vec<Option<Cache>>,
}

/// What `get` gives for `layer` of the layers `l`: the cached keys and values, or nothing for
/// an empty or missing layer.
pub open spec fn cached_at(l: Seq<Option<Cache>>, layer: int) -> Option<(Tensor, Tensor)> {
    if 0 <= layer < l.len() {
        match l[layer] {
            Some(c) => Some((c.k, c.v)),
            None => None,
        }
    } else {
        None
    }
}

/// The position of the first layer of `l` that holds a cache, if any.
pub open spec fn first_cached(l: Seq<Option<Cache>>) -> Option<int> {
    if exists|i: int| 0 <= i < l.len() && l[i] is Some {
        Some(choose|i: int| 0 <= i < l.len() && l[i] is Some && forall|j: int| 0 <= j < i ==> l[j] is None)
    } else {
        None
    }
}

/// The number of cached positions of `l`: the size of axis 2 of the first cached key tensor,
/// 0 when that tensor has no such axis or no layer holds a cache.
pub open spec fn cached_len(l: Seq<Option<Cache>>) -> nat {
    match first_cached(l) {
        Some(i) => {
            let d = tensor_dims(l[i].unwrap().k);
            if d.len() > 2 { d[2] as nat } else { 0 }
        },
        None => 0,
    }
}

impl View for KvCache {
    type V = Seq<Option<Cache>>;

    closed spec fn view(&self) -> Seq<Option<Cache>> {
        self.layers@
    }
}

impl KvCache {
    /// A cache of `num_layers` empty layers.
    pub fn new(num_layers: usize) -> (r: KvCache)
        ensures
            r@.len() == num_layers,
            forall|i: int| 0 <= i < num_layers ==> (#[trigger] r@[i]) is None,
    {
        let mut layers: Vec<Option<Cache>> = Vec::new();
        let mut i: usize = 0;
        while i < num_layers
            invariant
                i <= num_layers,
                layers@.len() == i,
                forall|j: int| 0 <= j < i ==> (#[trigger] layers@[j]) is None,
            decreases num_layers - i,
        {
            layers.push(None);
            i = i + 1;
        }
        KvCache { layers }
    }

    /// The cached keys and values of `layer`, none when the layer is empty or missing.
    pub fn get(&self, layer: usize) -> (r: Option<(&Tensor, &Tensor)>)
        ensures
            r matches Some(p) ==> cached_at(self@, layer as int) == Some((*p.0, *p.1)),
            r is None ==> cached_at(self@, layer as int) is None,
    {
        if layer < self.layers.len() {
            match &self.layers[layer] {
                Some(c) => Some((&c.k, &c.v)),
                None => None,
            }
        } else {
            None
        }
    }

    /// Caches `k` and `v` for `layer`, replacing what it held.
    pub fn update(&mut self, layer: usize, k: Tensor, v: Tensor) -> (r: Result<(), candle_core::Error>)
        requires
            layer < old(self)@.len(),
        ensures
            r is Ok,
            final(self)@ == old(self)@.update(layer as int, Some(Cache { k, v })),
    {
        self.layers.set(layer, Some(Cache { k, v }));
        Ok(())
    }

    /// The number of layers.
    pub fn num_layers(&self) -> (n: usize)
        ensures
            n == self@.len(),
    {
        self.layers.len()
    }

    /// Empties every layer.
    pub fn clear(&mut self)
        ensures
            final(self)@.len() == old(self)@.len(),
            forall|i: int| 0 <= i < final(self)@.len() ==> (#[trigger] final(self)@[i]) is None,
    {
        let n = self.layers.len();
        let mut i: usize = 0;
        while i < n
            invariant
                i <= n,
                n == self.layers@.len(),
                forall|j: int| 0 <= j < i ==> (#[trigger] self.layers@[j]) is None,
            decreases n - i,
        {
            self.layers.set(i, None);
            i = i + 1;
        }
    }

    /// The number of cached positions: the size of axis 2 of the keys of the first layer that
    /// holds a cache, 0 when no layer does.
    pub fn seq_len(&self) -> (n: usize)
        ensures
            n == cached_len(self@),
    {
        let m = self.layers.len();
        let mut i: usize = 0;
        while i < m
            invariant
                i <= m,
                m == self.layers@.len(),
                forall|j: int| 0 <= j < i ==> (#[trigger] self.layers@[j]) is None,
            decreases m - i,
        {
            match &self.layers[i] {
                Some(c) => {
                    proof {
                        let f = choose|f: int|
                            0 <= f < self@.len() && self@[f] is Some && forall|j: int| 0 <= j < f ==> self@[j] is None;
                        assert(0 <= i < self@.len() && self@[i as int] is Some && forall|j: int| 0 <= j < i ==> self@[j] is None);
                        if f < i {
                            assert(self@[f] is None);
                        } else if f > i {
                            assert(self@[i as int] is None);
                        }
                    }
                    return match tensor_dim(&c.k, 2) {
                        Ok(d) => d,
                        Err(_) => 0,
                    };
                },
                None => {},
            }
            i = i + 1;
        }
        0
    }
}

/// Reading a layer gives back what was last cached there.
pub proof fn law_update_then_get(l: Seq<Option<Cache>>, layer: int, k: Tensor, v: Tensor)
    requires
        0 <= layer < l.len(),
    ensures
        cached_at(l.update(layer, Some(Cache { k, v })), layer) == Some((k, v)),
        forall|other: int| other != layer ==> #[trigger] cached_at(l.update(layer, Some(Cache { k, v })), other) == cached_at(l, other),
{
}

/// After clearing, no layer holds a cache and nothing is cached.
pub proof fn law_cleared_is_empty(l: Seq<Option<Cache>>)
    requires
        forall|i: int| 0 <= i < l.len() ==> (#[trigger] l[i]) is None,
    ensures
        forall|layer: int| #[trigger] cached_at(l, layer) is None,
        cached_len(l) == 0,
{
}

} // verus!
