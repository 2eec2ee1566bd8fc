# rust_llm_inference

Building blocks of a small LLM inference and retrieval stack, verified with Verus.

`src/` is the verified library:

- `text`: white-space word splitting (as `str::split_whitespace`), joining, decimal numerals.
- `document`: documents with string metadata (one value per key) and chunks.
- `chunker`: splitting documents into overlapping word chunks, with laws on chunk bounds,
  overlap, coverage and re-splitting.
- `embedder`: the bag-of-words vocabulary (the most frequent normalised tokens of a corpus)
  and the vocabulary hits of a text.
- `ranking`: stable top-k selection by key, and the uniqueness of its result.
- `store`, `pipeline`: the chunk store, ranked retrieval by similarity score, and the
  context and prompt formats.
- `kv_cache`, `model`, `backward_pass`, `sampler`, `generator`: the per-layer key/value cache,
  the causal mask pattern, the causal shift of logits and labels, candidate ordering for
  sampling, the chat prompt format and the decisions of the decoding loop.

`app/` holds the floating-point parts (embedding vectors, cosine similarity, the transformer
layers, sampling probabilities, the burn training loop) and the three command-line demos.
