# capabilities

A family of small request/response capabilities (access decisions, pricing,
ownership assignment, action-item extraction, catalog building, PCM
conversion, consent checks, validators and more), written as a Verus library.
Each capability reads its request as bytes or plain values and writes its
response into a caller's buffer; its contract states the response exactly,
over spec functions of the request.

Layout:

- `src/` — the verified library, one module per capability, with the shared
  scanning (`scan.rs`), output (`emit.rs`), digest (`digest.rs`) and JSON
  string (`json_text.rs`) layers. The laws that relate several functions are
  public proof functions named `lemma_*` beside the functions they speak of.
- `tests/` — executable tests of the library.
- `app/` — the command-line front end: `capabilities <name> < request.json`
  reads a request on standard input and writes the response on standard
  output. Reading numbers as floating point, and the I/O, stay here.
