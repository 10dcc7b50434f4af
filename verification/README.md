# langextract

Extraction of structured, position-grounded information from text with
language models, written in Verus. The library (`src/`) holds the text
processing and decision logic with its contracts proved; the program around
it (`app/`) reads input, talks to model providers over the network, and
writes results.

## Layout

- `src/text.rs`, `src/tokenizer.rs`: UTF-8 text helpers, tokenization and
  sentence detection.
- `src/chunking.rs`, `src/annotation.rs`: splitting documents into chunks
  and batches.
- `src/templates.rs`, `src/prompting.rs`, `src/schema.rs`: prompt templates
  and example formatting.
- `src/resolver.rs`, `src/coercion.rs`, `src/alignment.rs`: reading model
  answers, validating and coercing them, and placing them in the source.
- `src/pipeline.rs`: multi-step pipelines, their execution order and waves.
- `src/visualization.rs`, `src/layers.rs`: text, HTML, Markdown, JSON and
  CSV exports, including layered pipeline pages.
- `src/markup.rs`: how a reader takes in the HTML written, the text it shows
  and whether its tags nest, used to state what highlighting keeps.
- `src/http_client.rs`, `src/inference.rs`, `src/providers.rs`,
  `src/config.rs`, `src/io.rs`, `src/data.rs`, `src/exceptions.rs`,
  `src/json.rs`: request bodies, answer reading, retry decisions,
  configuration, data types and errors.
- `app/`: the `lx-rs` command line, network calls, and the parts that rely
  on floating-point scores.
- `tests/`: tests of the library.
