# rcore_os

The memory, trap, task and system-call logic of a small RISC-V teaching
kernel, written in Verus and proved against its contracts.

- `src/` is the verified library:
  - `config`, `address`: the memory layout and page arithmetic;
  - `frame_allocator`: physical frames, handed out and recycled;
  - `page_table`: the mapping of virtual pages to frames;
  - `memory_set`: map areas and address spaces, the kernel space and the
    loading of an application from its ELF image (through `elf`, which reads
    headers with `xmas_elf`);
  - `user_mem`: writing into an address space's memory through its frames,
    and copying a whole user address space into fresh frames;
  - `trap`: the saved user context and what each trap cause leads to;
  - `task`: task control blocks: creation, `fork`, `exec` and the program break;
  - `fs`: open flags, descriptor tables, link counts;
  - `syscall`: the decisions of the file, process and thread system calls.
- `app/` is the kernel around it: the control registers (through `riscv`),
  the kernel address space, and the files kept on easy-fs.
- `tests/` runs the library on concrete values.
