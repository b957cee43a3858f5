use pocket_tts::alignment::ar_decoder::{
    ARDecoder, ARDecoderConfig, CaptureError, CrossAttnCache, LayerCaches, SelfAttnCache,
};

fn config(n_layer: usize) -> ARDecoderConfig {
    ARDecoderConfig { d_model: 384, n_head: 6, n_layer, n_vocab: 51865, n_ctx: 448 }
}

#[test]
fn captured_steps_are_read_back() {
    let mut decoder: ARDecoder<&str> = ARDecoder::new(&config(2));
    decoder.capture(0, "step 0, layer 0");
    decoder.capture(1, "step 0, layer 1");
    decoder.capture(0, "step 1, layer 0");
    decoder.capture(1, "step 1, layer 1");
    assert!(decoder.covers_steps());
    assert_eq!(
        decoder.captured_steps(),
        Ok(vec![
            vec![&"step 0, layer 0", &"step 0, layer 1"],
            vec![&"step 1, layer 0", &"step 1, layer 1"],
        ])
    );
}

#[test]
fn nothing_captured_is_an_error() {
    let decoder: ARDecoder<u8> = ARDecoder::new(&config(2));
    assert_eq!(decoder.captured_steps(), Err(CaptureError::NothingCaptured));
    let decoder: ARDecoder<u8> = ARDecoder::new(&config(0));
    assert!(decoder.covers_steps());
    assert_eq!(decoder.captured_steps(), Err(CaptureError::NothingCaptured));
}

#[test]
fn a_token_that_fails_half_way_is_noticed() {
    let mut decoder: ARDecoder<u8> = ARDecoder::new(&config(2));
    decoder.capture(0, 1);
    assert!(!decoder.covers_steps());
    decoder.capture(1, 2);
    assert!(decoder.covers_steps());
    decoder.capture(1, 3);
    assert!(decoder.covers_steps());
    assert_eq!(decoder.captured_steps(), Ok(vec![vec![&1, &2]]));
}

#[test]
fn a_reset_decoder_is_as_new() {
    let mut decoder: ARDecoder<u8> = ARDecoder::new(&config(2));
    decoder.caches[1].self_attn.store(1, 2);
    decoder.caches[0].cross_attn.store(3, 4);
    decoder.capture(0, 5);
    decoder.reset_cache();
    assert_eq!(decoder.caches.len(), 2);
    assert!(decoder.caches.iter().all(|c| c.self_attn.k.is_none() && c.self_attn.v.is_none()));
    assert!(decoder.caches.iter().all(|c| c.cross_attn.cached().is_none()));
    assert_eq!(decoder.attn_weights, vec![Vec::<u8>::new(), Vec::new()]);
}

#[test]
fn caches_keep_what_is_stored() {
    let mut cache: SelfAttnCache<u8> = SelfAttnCache::new();
    assert!(cache.k.is_none() && cache.v.is_none());
    cache.store(1, 2);
    cache.store(3, 4);
    assert_eq!((cache.k, cache.v), (Some(3), Some(4)));
    cache.reset();
    assert!(cache.k.is_none() && cache.v.is_none());
}

#[test]
fn audio_keys_are_cached_in_pairs() {
    let mut cache: CrossAttnCache<u8> = CrossAttnCache::new();
    assert_eq!(cache.cached(), None);
    cache.k = Some(1);
    assert_eq!(cache.cached(), None);
    cache.store(1, 2);
    assert_eq!(cache.cached(), Some((&1, &2)));
    cache.reset();
    assert_eq!(cache.cached(), None);
}

#[test]
fn a_layer_resets_both_caches() {
    let mut caches: LayerCaches<u8> = LayerCaches::new();
    caches.self_attn.store(1, 2);
    caches.cross_attn.store(3, 4);
    caches.reset_cache();
    assert_eq!((caches.self_attn.k, caches.self_attn.v), (None, None));
    assert_eq!((caches.cross_attn.k, caches.cross_attn.v), (None, None));
}
