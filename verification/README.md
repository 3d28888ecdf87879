# middleout

Middle-out compression, Pied Piper style, with its correctness proved in Verus.

A lossless compressor with two engines:

- **`middleout-lz`** (default): splits the input at the midpoint and compresses
  both halves outward from the middle. Each half is LZSS with a 64 KB window,
  hash-chain match finding, lazy matching and flag-byte token groups.
- **`middleout-ai`** (`--ai`): an online-learning context mixer that predicts the
  input one bit at a time and codes each bit with a binary arithmetic coder.

Data that an engine does not make shorter are stored as they are, so a `.mo` file
is never more than 13 bytes larger than the file it stands for.

## Layout

| where | what |
|---|---|
| `src/arith.rs` | the arithmetic coder |
| `src/lz.rs` | the LZ engine |
| `src/model.rs`, `src/model/` | the AI engine |
| `src/codec.rs` | the container format |
| `src/bench.rs` | the codecs that a benchmark compares |
| `src/le.rs`, `src/error.rs`, `src/naming.rs` | integers in bytes, errors, names |
| `app/` | the command line, the benchmark and the neural network |

The network of the AI engine works in floating point and stays outside the
verified library. The engine asks it through the trait `Network`, of which nothing
is assumed: whatever a network answers, compression and decompression do not fail.

## What is proved

Every function of the two engines states exactly what it returns, those of the AI
engine for every network that is deterministic: its answers rest on what it is and
on what it is asked (`model::network::deterministic`). Beyond that:

- either engine gives back all data, and a container is read without being told
  which engine made it (`codec::law_round_trip`). For the AI engine the networks on
  both sides have to be equal and deterministic;
- the AI decompressor runs in lockstep with its compressor (`model::law_lockstep`),
  does not look behind its payload (`model::law_trailing_bytes`), reads missing
  bytes as zeros (`model::law_zero_behind`), and its first bytes do not depend on
  how many follow (`model::law_prefix`);
- an LZ payload decompresses only as a whole: cut short, or with bytes behind it,
  it is refused (`lz::law_only_the_whole_payload`);
- a match of the AI engine starts at the most recent earlier occurrence of the last
  four bytes (`model::law_match_start`), and a prediction learns nothing
  (`model::mixer::law_predict_learns_nothing`);
- a container is at most 13 bytes longer than the data
  (`codec::law_never_much_larger`);
- the arithmetic coder gives back all bits, whatever their probabilities
  (`arith::law_round_trip`), and does not look behind its code
  (`arith::law_trailing_bytes`);
- a match is 4 to 259 bytes long at a distance of up to 65,535
  (`lz::law_match_tokens`), and repeats earlier data (`lz::law_found_is_match`).

That the network in `app/` is deterministic is not proved: it is floating point.

What gzip and zstd do is not proved: `src/bench.rs` calls `flate2` and `zstd`
behind four functions, of which it is believed only that what comes out rests on
their arguments alone. When zstd fails is left open.
