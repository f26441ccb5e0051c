# deep_net

A trainer for absurdly deep residual networks on MNIST whose layers live in a
file. Each layer is

```text
h = h + alpha * activation(h W + b)
```

with `h` of width 2 (the narrow network, six numbers per layer) or of any width
up to 512 (the dense network). A perceptron with one hidden layer is trained by
the same head code.

Training is exact reverse-mode gradient descent, but chunked: the forward pass
works through the file and keeps what enters each chunk, the backward pass works
through the chunks in reverse, recomputes what it needs inside a chunk, takes one
step of gradient descent on it and writes it back.

## What is proved

The library in `src/` is verified with Verus. It is generic over the arithmetic
(`arith.rs`); contracts on numeric results hold for every arithmetic whose
operations return what they are specified to return, rounding included.

- `chunking.rs`, `train.rs`, `streaming.rs`, `filestep.rs`: a step that works
  through a file, or through memory, in chunks of any size gives the layers, the
  head and the loss of one step on the whole network.
- `session.rs`: so does a whole run, and a run in memory does not touch the file
  before its last step is done.
- `kernels.rs`, `batches.rs`: the kernels for different widths and processors
  differ in rounding alone; without it, a batch changes the parameters by what its
  samples do.
- `loss.rs`, `adjoint.rs`, `descent.rs`: without rounding, a step descends along the
  gradient of the loss through the whole network, from the images to the loss,
  wherever the loss can be differentiated. The derivatives of the exponential, the
  logarithm and the activations are taken to be the known ones.
- `statistics.rs`, `accuracy.rs`: a step reports what an evaluation before it does,
  and the accuracy does not depend on the size of the batches.
- `layout.rs`, `stream.rs`, `transfer.rs`: the chunks tile the file, and a transfer
  in parts covers its buffer.
- `codec.rs`, `idx.rs`: stored heads load as they were saved, and data files are
  accepted exactly when they are what they say.
- `sampler.rs`, `run.rs`, `evaluation.rs`: batches follow each other in one stream
  of draws, and an evaluation takes every sample once.

What is trusted: drawing an index from `rand_chacha` (`sampler.rs`) and
decompressing a download with `flate2` (`idx.rs`).

## Layout

- `src/` the verified library
- `tests/` its tests, in single and double precision
- `app/` the command line: options, files, downloads, floating point and printing
