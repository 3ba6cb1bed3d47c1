# astryx_kernel

Memory management and window messaging of the Aether kernel, verified with Verus.

- `src/mm/` holds the page-frame allocator with reference counts and DMA pins, page tables,
  address spaces and their copy-on-write duplication, the kernel heap, translation shootdown
  with its quarantine of freed frames, the page cache, the out-of-memory killer, and the
  tables that record who touched a frame.
- `src/msg/` holds window messages: their queues, dispatch, and the translation of keyboard
  and mouse events.
- `app/` is the kernel around it: processor instructions, locks, interrupts, file reads,
  window procedures and the log.

Kernel-global state is an ordinary value here. A function takes the tables that it works on,
the physical memory among them, and its contract says what it does to each: most contracts
equate the state after a call with a specification function of the state before. Inputs from
the machine (the tick, the processor number, registers, random offsets) are arguments.

What has to wait for the machine is cut in two. A function that takes translations away says
which processors to ask and which frames are to go; `app/` asks them, waits, and then gives the
frames back. A function that finds no frame free says so, and `app/` ends a process and calls it
again.

Properties that relate several functions are public proof functions whose names start with
`law_`. They stand beside the functions they speak of; those of the heap, of forking and
of whole address spaces have files of their own.
