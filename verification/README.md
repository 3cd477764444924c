# nanochat_rs

The verified core of a small GPT-style chat program, and the programs around it.

- `src/` is the library. Every function has a contract that Verus proves.
  - `tokenizer/`: byte pair encoding and decoding, with special tokens.
  - `chat`, `worker`, `stream`, `reply`, `session`, `pool`: requests and their limits, the
    layout of conversations, replies, interactive sessions, and the pool of workers.
  - `engine`, `sampling`: sequences that grow token by token, and the choice of tokens.
  - `model/`: configurations, the key/value cache, rotary embeddings, the shapes of
    attention, and which positions count in a loss.
  - `check_points`, `source`, `assets`: the files of a model and of the web page.
- `tests/` runs the library on concrete values.
- `app/` has the programs: the interactive one and the web server. Floating point
  arithmetic, files and the network are there.

What the library takes from other crates (`candle_core`, `fancy_regex`, `ahash`, `rand`) and
from the standard library without proof stands in functions marked
`#[verifier::external_body]` and in `assume_specification` items. Each says which outside
function it speaks of, and what it claims.
