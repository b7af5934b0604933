# ram-a

A long-term memory for agents, and a case library on top of it. The rules of both
are a library that Verus verifies; what reads files, asks services and listens on
the network is ordinary Rust around it.

- `src/` is the verified library.
  - `text`, `scan`, `json`, `order`: texts, JSON values and sorting.
  - `record`, `api`, `store`, `manager`, `ranking`, `search`, `retry`, `embedding`:
    memory records, how they are added and deleted, and the steps of a search
    over embeddings, words and the graph.
  - `graph_*`: the graph of facts. What a language model extracts from a record is
    cleaned and checked (`graph_llm`, `graph_clean`, `graph_facts`,
    `graph_extraction`), moved through the stages of a run (`graph_runs`,
    `graph_stages`, `graph_resolution`), and found again (`graph_retrieval`,
    `graph_bundle`, `graph_context`, `graph_fusion`).
  - `bench*`: what a benchmark run adds and searches, and how it resumes.
  - `case_*`: the case library. Documents are parsed and chunked (`case_parser`,
    `case_chunker`), turned into search terms and summaries (`case_terms`,
    `case_overlap`, `case_summary`, `case_profile`), kept in tables
    (`case_store`), and searched (`case_retrieval`, `case_service`).
- `tests/` runs the library on concrete values.
- `app/` is the `ram-a` program: databases, HTTP, the command line, and the
  arithmetic on scores.

## Numbers

The library holds no floating-point numbers. A score stands as its place in the
order of single-precision numbers (`api::score_rank`, `api::score_bits`), an
embedding as the bits of its components, and a number of a JSON value that is no
integer as its shortest decimal text. Where a score is computed, the library hands out what it
is computed from and takes back its place.

## What is taken on trust

Each function that calls out of the library says so, and what is claimed of the
call: the properties and cases of characters in `text`, identifiers and the clock in
`ids`, what `serde_json` reads and prints in `json` and `graph_resolution`, and the debug form of a list in `bench_run`.
