# rcore_os

The system-call layer of a small RISC-V teaching kernel, as a Verus library.
Each `sys_*` function decides what its call returns and how it changes the
state of the calling process, over plain models of that state:

- `fs`: descriptor table and root directory (`open`, `close`, `read`/`write`
  access checks, `fstat`, `linkat`, `unlinkat`);
- `mm`: page-granular address space (`mmap`, `munmap`);
- `process`: children and `waitpid`, `fork`, program lookup for `exec` and
  `spawn`, `set_priority`, `get_time`, `sbrk`, `getpid`;
- `sync`: mutexes, semaphores, condition variables and deadlock detection;
- `deadlock`: the wait-for-graph search behind semaphore deadlock detection;
- `manager`: the stride-scheduling ready queue;
- `slots`: id tables that reuse their lowest free slot.

Blocking, waking, task switching and data transfer are left to the caller:
where a call would block, the function returns the step to take next.
`app/` holds a small host program that plays that part.
