# vugva

Tensors that live in the memory of several GPUs, in host memory and on storage,
and move between the three as they are used.

- `src/` decides and keeps the books. It is verified with Verus: every function
  states what it returns or changes, and the laws (`law_..`) say what holds of
  the library as a whole.
- `app/` talks to the driver, to the operating system and to files, and computes
  the scores by which pages are ranked, which are floating-point numbers. It
  hands plain values to the library and carries out what the library answers.
- `tests/` run the library on concrete values, with a simulated machine where
  device memory is needed.

| Module | What it is |
| --- | --- |
| `vmt` | pages by name, and the states they go through |
| `ranges`, `range_alloc` | best-fit allocation of ranges, and what it means |
| `tiered` | the three-tier pool: allocation, access, demotion, prefetch, sweeps |
| `tiered::machine` | what the pool makes of memory: what is written is read back |
| `tiered::soundness`, `tiered::blocks` | no memory is in two hands |
| `tiered::reuse` | memory of dropped pages is used again |
| `tiered::placement` | what a sweep does to the placement of the pages |
| `allocator` | tensors divided among several GPUs |
| `dma` | descriptors and command rings |
| `membrane`, `ranking` | access rates, and who deserves device memory |
| `gpu`, `host`, `ffi` | the machine: devices, NUMA nodes, driver codes |
