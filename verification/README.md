# Reason Ready

An embedded retrieval-and-reasoning engine: it embeds, recalls, reranks and
judges, over a persistent estate or in memory.

`src/` is the library. It holds what the engine decides and computes. Its
functions are verified with Verus against the contracts they state, but for a
few at the edge: what characters, lowercasing and JSON are is taken from the
standard library and `serde_json`, on contracts that are stated and not proved.

- `text`, `number`, `order`, `bytes`, `strset`, `score`: tokens and lines,
  decimal numbers, byte and string order, integers as bytes, string sets, and
  rankings by score.
- `keys`, `kv`, `layout`: where rows stand, how batches and counters are
  committed, how column families are tuned, and that typed writes and stored
  rows agree.
- `index`, `store`, `estate`, `search`: postings, what an upsert and a removal
  write, that postings and counters agree with the documents as long as no
  upsert repeats an id, and how dense and lexical rankings are fused and
  hydrated.
- `filter`, `pidx`: filters, and that they are answered exactly from the payload
  index.
- `pending`: the queue of a graph's applier, and the overlay under which readers
  see their own writes.
- `flat`, `dim`, `census`, `registry`, `embedder`, `reranker`: the in-memory
  store, the dimension guard, the shape census, the shape registry, and the
  model plug-points.
- `flow`, `net`, `node`, `serve`, `engine`: one pass through the components,
  messages and framing, and which message asks for what.
- `bench`, `eval`: what the two harnesses draw, read and count.

A floating-point number is carried through the library as its bit pattern; the
order of floating-point numbers is an order of those patterns. Functions named
`law_...` state what holds across functions.

`app/` is ordinary Rust around the library: storage backends, TCP, threads,
signals, serde, and the floating-point formulas.
