# wyrd

`wyrd` is semantic tooling for `yore` JSON pipelines: it reranks `yore query`
results, clusters `yore vocabulary` terms and refines `yore dupes` pairs with
text embeddings, and emits raw embeddings.

## Layout

- `src/` is the verified library (Verus). It holds the rules of the commands
  with their contracts:
  - `text`: Unicode whitespace, trimming, whitespace collapsing, line
    splitting and decimal formatting, stated over `Seq<char>`;
  - `ops`: path resolution, document excerpts, warnings, input checks, the
    order of reranked results (and that a limit keeps the top of it), the
    order of retained duplicate pairs (and that a stricter threshold keeps a
    subsequence of it) and the file each result is read from;
  - `cluster`: the clusters of a vocabulary as the connected components of
    its similarity graph, with their members and themselves in order; that
    they are unique, that a sparser graph only splits them and that the
    order of distinct terms does not change them;
  - `ranking`: the key orders and the sort the orderings share;
  - `scores`: order-preserving integer keys for floating-point scores;
  - `embeddings`: embedding errors, the little-endian byte encoding of
    embeddings (encode and decode are inverse) and where the tokenizer is
    found;
  - `yore_json`: how query payloads are recognized, the refusal texts and
    where the original query is found;
  - `fixture`: the keyword embedder used to test the command line.
- `app/` is the command-line program: argument parsing, stdin and files, the
  `serde` payload types, the ONNX model and tokenizer, and the floating-point
  scoring, calling the library for everything else.
- `tests/` exercises the library on concrete values.
