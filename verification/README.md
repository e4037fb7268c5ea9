# microkimi

The verified core of a small local language-model runtime, and a command line around it.

`src/` is a Verus library. It holds what the runtime decides and lays out: the byte-level
BPE tokenizer and its chat prompts, the checkpoint container and the binding of a decoder
to it, the caches and the speculative decoding loop, the suffix-automaton drafter, the
planning of a structural slice with its resume files, the stores kept beside a model, and
the integer side of the quantized formats. Every function has a contract, and the laws
that span functions are public proof functions named `law_*`.

Real numbers do not occur in the library. Where a decision depends on them it takes their
bits: orders, arg-max, nearest entry and thresholds are exact on 32- and 64-bit floats.

`app/` is ordinary Rust: `main`, files and memory maps, JSON, threads, and the
floating-point kernels.

`tests/` runs the library on concrete values.

## Trusted items

All of them stand in `src/unicode.rs`: the letter category from `unicode-properties`, NFC
from `unicode-normalization`, and from std the numeric characters, lossy and strict UTF-8
and the appending of a character to a string.

## Files

| file | what it is |
|---|---|
| `X.bin` | checkpoint, `MKIM0001` or `MKIM0002` (with a JSON config block) |
| `X.bin.shadows` | resident vector-quantized copies of the routed experts |
| `X.routes` | routing histograms of past sessions |
| `imatrix.bin` | activation statistics of a calibration |
| `Y.bin.sliceckpt` | what an interrupted slice has already settled |
| `Y.bin.slicecache/` | expert scores, kept across runs |
