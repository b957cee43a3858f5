//! The state of the autoregressive decoder.
//!
//! The decoder takes one token at a time. What it carries from one token to the next stands
//! here: the keys and values of its attention layers, and the attention weights that it has
//! captured. Both are kept for tensors of any type.

use vstd::prelude::*;

verus! {

/// Config subset needed by the autoregressive decoder.
#[derive(Debug, Clone)]
pub struct ARDecoderConfig {
    pub d_model: usize,
    pub n_head: usize,
    pub n_layer: usize,
    pub n_vocab: usize,
    /// The greatest number of positions.
    pub n_ctx: usize,
}

/// Self-attention cache: the keys and values of all tokens so far.
#[derive(Debug, Clone)]
pub struct SelfAttnCache<T> {
    pub k: Option<T>,
    pub v: Option<T>,
}

impl<T> SelfAttnCache<T> {
    /// The cache before the first token.
    pub open spec fn empty() -> Self {
        SelfAttnCache { k: None, v: None }
    }

    /// Makes the cache that holds nothing.
    pub fn new() -> (r: Self)
        ensures
            r == Self::empty(),
            r.k is None && r.v is None,
    {
        SelfAttnCache { k: None, v: None }
    }

    /// Forgets all keys and values.
    pub fn reset(&mut self)
        ensures
            *final(self) == Self::empty(),
            final(self).k is None && final(self).v is None,
    {
        self.k = None;
        self.v = None;
    }

    /// Replaces the keys and values by those that have grown by the current token.
    pub fn store(&mut self, k: T, v: T)
        ensures
            *final(self) == (SelfAttnCache { k: Some(k), v: Some(v) }),
    {
        self.k = Some(k);
        self.v = Some(v);
    }
}

/// Cross-attention cache: the keys and values of the audio, computed once and then reused.
#[derive(Debug, Clone)]
pub struct CrossAttnCache<T> {
    pub k: Option<T>,
    pub v: Option<T>,
}

impl<T> CrossAttnCache<T> {
    /// The cache before the first token.
    pub open spec fn empty() -> Self {
        CrossAttnCache { k: None, v: None }
    }

    /// Makes the cache that holds nothing.
    pub fn new() -> (r: Self)
        ensures
            r == Self::empty(),
            r.k is None && r.v is None,
    {
        CrossAttnCache { k: None, v: None }
    }

    /// Forgets the keys and values.
    pub fn reset(&mut self)
        ensures
            *final(self) == Self::empty(),
            final(self).k is None && final(self).v is None,
    {
        self.k = None;
        self.v = None;
    }

    /// The keys and values, once both have been computed.
    pub fn cached(&self) -> (r: Option<(&T, &T)>)
        ensures
            match r {
                Some((k, v)) => self.k == Some(*k) && self.v == Some(*v),
                None => self.k is None || self.v is None,
            },
    {
        match (&self.k, &self.v) {
            (Some(k), Some(v)) => Some((k, v)),
            _ => None,
        }
    }

    /// Keeps the keys and values for the tokens to come.
    pub fn store(&mut self, k: T, v: T)
        ensures
            *final(self) == (CrossAttnCache { k: Some(k), v: Some(v) }),
    {
        self.k = Some(k);
        self.v = Some(v);
    }
}

/// The caches of one layer of the decoder.
#[derive(Debug, Clone)]
pub struct LayerCaches<T> {
    pub self_attn: SelfAttnCache<T>,
    pub cross_attn: CrossAttnCache<T>,
}

impl<T> LayerCaches<T> {
    /// The caches before the first token.
    pub open spec fn empty() -> Self {
        LayerCaches { self_attn: SelfAttnCache::empty(), cross_attn: CrossAttnCache::empty() }
    }

    /// Makes caches that hold nothing.
    pub fn new() -> (r: Self)
        ensures
            r == Self::empty(),
            is_empty(r),
    {
        LayerCaches { self_attn: SelfAttnCache::new(), cross_attn: CrossAttnCache::new() }
    }

    /// Empties both caches.
    pub fn reset_cache(&mut self)
        ensures
            *final(self) == Self::empty(),
            is_empty(*final(self)),
    {
        self.self_attn.reset();
        self.cross_attn.reset();
    }
}

/// Whether neither cache of a layer holds anything.
pub open spec fn is_empty<T>(caches: LayerCaches<T>) -> bool {
    &&& caches.self_attn.k is None && caches.self_attn.v is None
    &&& caches.cross_attn.k is None && caches.cross_attn.v is None
}

/// The attention weights, first by layer and then by step.
pub open spec fn weights<T>(v: Seq<Vec<T>>) -> Seq<Seq<T>> {
    Seq::new(v.len(), |layer: int| v[layer]@)
}

/// The weights once those of one more step have been captured in one layer.
pub open spec fn captured<T>(weights: Seq<Seq<T>>, layer: int, w: T) -> Seq<Seq<T>> {
    weights.update(layer, weights[layer].push(w))
}

/// The weights once those of one more step have been captured in the first `n` layers.
pub open spec fn captured_in<T>(weights: Seq<Seq<T>>, step: Seq<T>, n: int) -> Seq<Seq<T>>
    decreases n,
{
    if n <= 0 {
        weights
    } else {
        captured(captured_in(weights, step, n - 1), n - 1, step[n - 1])
    }
}

/// Whether no layer has captured fewer steps than the first.
pub open spec fn covers_steps<T>(weights: Seq<Seq<T>>) -> bool {
    forall|layer: int|
        0 <= layer < weights.len() ==> (#[trigger] weights[layer]).len() >= weights[0].len()
}

/// Whether every layer has captured `n` steps.
pub open spec fn has_steps<T>(weights: Seq<Seq<T>>, n: nat) -> bool {
    forall|layer: int| 0 <= layer < weights.len() ==> (#[trigger] weights[layer]).len() == n
}

/// The weights of one step, one for every layer.
pub open spec fn step_weights<T>(weights: Seq<Seq<T>>, step: int) -> Seq<T> {
    Seq::new(weights.len(), |layer: int| weights[layer][step])
}

/// The weights by step and then by layer, for all steps that the first layer has captured.
pub open spec fn by_step<T>(weights: Seq<Seq<T>>) -> Seq<Seq<T>> {
    if weights.len() == 0 {
        Seq::empty()
    } else {
        Seq::new(weights[0].len(), |step: int| step_weights(weights, step))
    }
}

/// References to the weights, by step and then by layer.
pub open spec fn referred<T>(v: Seq<Vec<&T>>) -> Seq<Seq<T>> {
    Seq::new(v.len(), |step: int| Seq::new(v[step]@.len(), |layer: int| *v[step]@[layer]))
}

/// Why no attention weights can be read.
#[derive(Debug, Clone, Copy, PartialEq, Eq, Structural)]
pub enum CaptureError {
    /// No token has been processed.
    NothingCaptured,
}

/// What the autoregressive decoder carries from one token to the next: the caches of its
/// layers and, for each layer, the attention weights of every step.
#[derive(Debug, Clone)]
pub struct ARDecoder<T> {
    pub caches: Vec<LayerCaches<T>>,
    pub attn_weights: Vec<Vec<T>>,
}

impl<T> ARDecoder<T> {
    /// There are caches and weights for the same layers.
    pub open spec fn wf(&self) -> bool {
        self.caches@.len() == self.attn_weights@.len()
    }

    /// Whether this is the state of a decoder of `n_layer` layers before the first token.
    pub open spec fn is_fresh(&self, n_layer: nat) -> bool {
        &&& self.caches@ == Seq::new(n_layer, |layer: int| LayerCaches::<T>::empty())
        &&& weights(self.attn_weights@) == Seq::new(n_layer, |layer: int| Seq::<T>::empty())
    }

    /// The state of a decoder before the first token.
    pub fn new(config: &ARDecoderConfig) -> (r: Self)
        ensures
            r.is_fresh(config.n_layer as nat),
            r.wf(),
            r.caches@.len() == config.n_layer,
            forall|i: int| 0 <= i < config.n_layer ==> is_empty(#[trigger] r.caches@[i]),
            forall|i: int| 0 <= i < config.n_layer ==> (#[trigger] r.attn_weights@[i])@.len() == 0,
    {
        let mut caches: Vec<LayerCaches<T>> = Vec::new();
        let mut attn_weights: Vec<Vec<T>> = Vec::new();
        for layer in 0..config.n_layer
            invariant
                caches@ == Seq::new(layer as nat, |i: int| LayerCaches::<T>::empty()),
                weights(attn_weights@) == Seq::new(layer as nat, |i: int| Seq::<T>::empty()),
                attn_weights@.len() == layer,
                forall|i: int| 0 <= i < layer ==> (#[trigger] attn_weights@[i])@.len() == 0,
        {
            let ghost before = weights(attn_weights@);
            caches.push(LayerCaches::new());
            attn_weights.push(Vec::new());
            assert(weights(attn_weights@) == before.push(Seq::<T>::empty()));
        }
        ARDecoder { caches, attn_weights }
    }

    /// Reset all caches and captured attention weights. Call before each new audio.
    pub fn reset_cache(&mut self)
        requires
            old(self).wf(),
        ensures
            final(self).is_fresh(old(self).caches@.len()),
            final(self).wf(),
            final(self).caches@.len() == old(self).caches@.len(),
            forall|i: int|
                0 <= i < final(self).caches@.len() ==> is_empty(#[trigger] final(self).caches@[i]),
            forall|i: int|
                0 <= i < final(self).attn_weights@.len() ==> (#[trigger] final(self).attn_weights@[i])@.len() == 0,
    {
        let n_layer: usize = self.caches.len();
        let mut attn_weights: Vec<Vec<T>> = Vec::new();
        for layer in 0..n_layer
            invariant
                n_layer == self.caches@.len() == old(self).caches@.len(),
                forall|i: int|
                    0 <= i < layer ==> #[trigger] self.caches@[i] == LayerCaches::<T>::empty(),
                weights(attn_weights@) == Seq::new(layer as nat, |i: int| Seq::<T>::empty()),
                attn_weights@.len() == layer,
                forall|i: int| 0 <= i < layer ==> (#[trigger] attn_weights@[i])@.len() == 0,
        {
            let ghost before = weights(attn_weights@);
            self.caches[layer].reset_cache();
            attn_weights.push(Vec::new());
            assert(weights(attn_weights@) == before.push(Seq::<T>::empty()));
        }
        self.attn_weights = attn_weights;
        assert(self.caches@ == Seq::new(n_layer as nat, |i: int| LayerCaches::<T>::empty()));
    }

    /// Captures the attention weights of a layer in the current step.
    pub fn capture(&mut self, layer: usize, w: T)
        requires
            old(self).wf(),
            layer < old(self).attn_weights@.len(),
        ensures
            weights(final(self).attn_weights@) == captured(
                weights(old(self).attn_weights@),
                layer as int,
                w,
            ),
            final(self).caches == old(self).caches,
            final(self).wf(),
            final(self).attn_weights@[layer as int]@ == old(self).attn_weights@[layer as int]@.push(
                w,
            ),
            forall|i: int|
                0 <= i < old(self).attn_weights@.len() && i != layer ==> (#[trigger] final(self).attn_weights@[i])@ == old(self).attn_weights@[i]@,
    {
        self.attn_weights[layer].push(w);
    }

    /// Whether no layer has captured fewer steps than the first. That holds between tokens; a
    /// token that fails half-way leaves the later layers behind.
    pub fn covers_steps(&self) -> (r: bool)
        ensures
            r == covers_steps(weights(self.attn_weights@)),
            r <==> forall|layer: int|
                0 <= layer < self.attn_weights@.len() ==> (#[trigger] self.attn_weights@[layer])@.len()
                    >= self.attn_weights@[0]@.len(),
    {
        let n_layers: usize = self.attn_weights.len();
        for layer in 0..n_layers
            invariant
                n_layers == self.attn_weights@.len(),
                forall|i: int|
                    0 <= i < layer ==> (#[trigger] weights(self.attn_weights@)[i]).len()
                        >= weights(self.attn_weights@)[0].len(),
        {
            if self.attn_weights[layer].len() < self.attn_weights[0].len() {
                assert(weights(self.attn_weights@)[layer as int].len() < weights(
                    self.attn_weights@,
                )[0].len());
                return false;
            }
        }
        assert forall|layer: int| 0 <= layer < n_layers implies (
        #[trigger] self.attn_weights@[layer])@.len() >= self.attn_weights@[0]@.len() by {
            assert(weights(self.attn_weights@)[layer].len() >= weights(self.attn_weights@)[0].len());
        }
        true
    }

    /// The captured attention weights by step, and in each step by layer.
    pub fn captured_steps(&self) -> (r: Result<Vec<Vec<&T>>, CaptureError>)
        requires
            covers_steps(weights(self.attn_weights@)),
        ensures
            match r {
                Err(e) => e == CaptureError::NothingCaptured && by_step(
                    weights(self.attn_weights@),
                ).len() == 0,
                Ok(steps) => by_step(weights(self.attn_weights@)).len() > 0 && referred(steps@)
                    == by_step(weights(self.attn_weights@)),
            },
            r is Err <==> self.attn_weights@.len() == 0 || self.attn_weights@[0]@.len() == 0,
            r matches Ok(steps) ==> {
                &&& steps@.len() == self.attn_weights@[0]@.len()
                &&& forall|step: int|
                    0 <= step < steps@.len() ==> (#[trigger] steps@[step])@.len()
                        == self.attn_weights@.len()
                &&& forall|step: int, layer: int|
                    0 <= step < steps@.len() && 0 <= layer < self.attn_weights@.len()
                        ==> *(#[trigger] steps@[step]@[layer])
                        == self.attn_weights@[layer]@[step]
            },
    {
        let ghost all = weights(self.attn_weights@);
        let n_layers: usize = self.attn_weights.len();
        if n_layers == 0 || self.attn_weights[0].len() == 0 {
            return Err(CaptureError::NothingCaptured);
        }
        let n_steps: usize = self.attn_weights[0].len();
        let mut steps: Vec<Vec<&T>> = Vec::new();
        for step in 0..n_steps
            invariant
                n_layers == self.attn_weights@.len() == all.len() > 0,
                all == weights(self.attn_weights@),
                covers_steps(all),
                n_steps == all[0].len(),
                referred(steps@) == by_step(all).take(step as int),
                steps@.len() == step,
                forall|s: int| 0 <= s < step ==> (#[trigger] steps@[s])@.len() == n_layers,
                forall|s: int, layer: int|
                    0 <= s < step && 0 <= layer < n_layers ==> *(#[trigger] steps@[s]@[layer])
                        == self.attn_weights@[layer]@[s],
        {
            let mut of_layers: Vec<&T> = Vec::new();
            for layer in 0..n_layers
                invariant
                    n_layers == self.attn_weights@.len() == all.len() > 0,
                    all == weights(self.attn_weights@),
                    covers_steps(all),
                    step < n_steps == all[0].len(),
                    of_layers@.len() == layer,
                    forall|i: int| 0 <= i < layer ==> *#[trigger] of_layers@[i] == all[i][step as int],
            {
                assert(all[layer as int].len() >= all[0].len());
                of_layers.push(&self.attn_weights[layer][step]);
            }
            let ghost before = referred(steps@);
            let ghost now = Seq::new(of_layers@.len(), |layer: int| *of_layers@[layer]);
            assert(now == step_weights(all, step as int));
            steps.push(of_layers);
            assert(referred(steps@) == before.push(now));
            assert(by_step(all).take(step + 1) == by_step(all).take(step as int).push(now));
        }
        assert(by_step(all).take(n_steps as int) == by_step(all));
        Ok(steps)
    }
}

/// What the capture in the first layers changes.
proof fn lemma_captured_in<T>(weights: Seq<Seq<T>>, step: Seq<T>, n: int)
    requires
        0 <= n <= weights.len() == step.len(),
    ensures
        captured_in(weights, step, n).len() == weights.len(),
        forall|layer: int|
            0 <= layer < weights.len() ==> #[trigger] captured_in(weights, step, n)[layer] == if layer
                < n {
                weights[layer].push(step[layer])
            } else {
                weights[layer]
            },
    decreases n,
{
    if n > 0 {
        lemma_captured_in(weights, step, n - 1);
    }
}

/// Steps are read back as they were captured: after the capture in all layers the steps are
/// those before and then the new one.
pub proof fn law_steps_are_read_back<T>(weights: Seq<Seq<T>>, step: Seq<T>, n: nat)
    requires
        weights.len() == step.len() > 0,
        has_steps(weights, n),
    ensures
        has_steps(captured_in(weights, step, step.len() as int), n + 1),
        by_step(captured_in(weights, step, step.len() as int)) == by_step(weights).push(step),
{
    let after = captured_in(weights, step, step.len() as int);
    lemma_captured_in(weights, step, step.len() as int);
    assert forall|layer: int| 0 <= layer < after.len() implies (#[trigger] after[layer]).len()
        == n + 1 by {
        assert(weights[layer].len() == n);
    }
    assert(after[0].len() == n + 1);
    assert(weights[0].len() == n);
    assert forall|k: int| 0 <= k < n + 1 implies #[trigger] by_step(after)[k] == by_step(
        weights,
    ).push(step)[k] by {
        assert forall|layer: int| 0 <= layer < weights.len() implies #[trigger] after[layer][k]
            == by_step(weights).push(step)[k][layer] by {
            assert(weights[layer].len() == n);
        }
        assert(step_weights(after, k) == by_step(weights).push(step)[k]);
    }
}

/// Between tokens, when all layers have captured the same number of steps, all steps can be
/// read.
pub proof fn law_between_tokens_all_steps_are_covered<T>(weights: Seq<Seq<T>>, n: nat)
    requires
        has_steps(weights, n),
    ensures
        covers_steps(weights),
{
    if weights.len() > 0 {
        assert(weights[0].len() == n);
    }
}

} // verus!
