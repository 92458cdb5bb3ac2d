# baseline_llm_os

Memory management and scheduling for LLM inference, written and proved in Verus.

The library decides and computes; it does no I/O. It hands out plans (which
bytes to copy where, which kernel to launch with which sizes, what to read
next) and takes the outcome back as plain values.

| Module | Content |
|--------|---------|
| `src/kcmm` | Pool of KV-cache blocks over lockstep per-layer superblock pools; eviction to and restoration from a CPU swap buffer; eviction policies; metrics |
| `src/cache` | Contiguous and paged KV caches, swapping of whole sequences, fragmentation counts |
| `src/batch` | Static batches and the continuous-batching scheduler: admission, preemption, restoration, steps, completion |
| `src/model` | Weight shards and direct file reads, weight resolution, the forward pass as a list of operations |
| `src/cuda` | Launch dimensions of the kernels |
| `src/decoder` | Greedy sampling over the bit patterns of logits |
| `src/server` | Requests of the HTTP front end, frames between pipeline stages |

Contracts are stated over mathematical models: `PoolView` for a pool or paged
cache, `SchedView` for the scheduler, byte sequences for memory. The
proof functions whose names start with `law_` state what holds across
operations, for instance that every physical block is free or owned exactly
once, that no two blocks share a byte of the swap buffer, or that a block
restored after eviction holds the bytes it held before, whatever happened to
other blocks in between.

`app` is the server around the library: CUDA, files, sockets, floating point
metrics and the C interface. It compiles its CUDA kernels at start-up from the
directory named by `LLM_OS_KERNELS`, by default `kernels`.
