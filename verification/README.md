# Banking jitter probes

Measurement primitives for timing a banking stage against Alpenglow Votor's per-round
budget, and for telling CPU-scheduling delay, I/O stall and allocator pause apart.

- `src/` is the library, verified with Verus: what the kernel's `/proc` files say, the tally
  of an off-CPU sampler, the meter of a timing allocator, percentile summaries, and the
  Votor budget. Every function states in its contract what it returns; each module ends
  with the laws that hold across its functions.
- `app/` runs the probes on a live Linux process: it reads the files, runs the sampler
  thread, puts jemalloc behind the meter, and prints.
- `tests/` holds the tests.

What is trusted, beyond Verus and its library: that `String::push` appends a character, and
that the clock can be read (`std::time::Instant`). Nothing is said of what the clock reads.
