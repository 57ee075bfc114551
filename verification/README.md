# Sentinel

Sentinel is a container runtime for small applications. The memory, the files,
the signals and the sockets of an application are kept by the runtime, which
traces the application and answers its system calls.

- `src/` is the library. It holds what the runtime decides and computes, with
  contracts that Verus proves:
  - `segment`: sets of disjoint ranges with values, on which most else rests;
  - `memmap`: which addresses an object is mapped at;
  - `pgalloc`: the file that backs memory;
  - `mm`: the memory of an application (mapping, unmapping, protecting, moving,
    faults, access), with its laws in `mm/laws.rs`;
  - `kernel`: descriptors, pipes, polling, signals, tasks;
  - `net`: addresses, ports, sockets and their options;
  - `loader`: program files, scripts, auxiliary values, the vdso;
  - `platform` and `sandbox`: the registers of injected calls, the events of a
    traced process, capabilities, and the steps in which a container is set up.
- `tests/` runs the library.
- `app/` is the program around it: it reads and writes, forks and traces, and
  asks the library what to do.

What the library has from other crates stands behind a few functions that are
taken on trust: random numbers, text from bytes, program files read by `goblin`,
and the list of capabilities of `caps`.
