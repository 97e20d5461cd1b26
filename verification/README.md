# p1c0_kernel

The hardware-independent core of the p1c0 kernel for Apple M1 machines,
written in Verus: every function in `src/` carries a contract. The verifier
proves them all but those of the few wrappers, marked
`#[verifier::external_body]`, that call `heapless`, `rustc-demangle`,
`object` or std string functions.

- `crc`, `hash`: CRC-16 and CRC-32C, and the hasher built on CRC-32C.
- `collections`: an open-addressing hash map, a list of boxed items and a
  single-producer single-consumer byte queue.
- `elf`: a reader for 64-bit little-endian ELF images.
- `filesystem`: absolute paths, a cpio (new ASCII) archive reader and the
  read-only file system on top of it.
- `arch::mmu`: the four-level translation tables (16 KiB pages): mapping
  and unmapping ranges, and descriptor encoding.
- `memory`: addresses, the kernel's fixed layout, the physical page
  allocator, the named memory ranges of an address space, and the memory
  manager that maps the boot layout, I/O and logical ranges on top of them.
- `stripper`, `backtrace::ksyms`: the kernel symbol file, written from the
  symbols of an ELF image and read back to name addresses.
- `drivers`: the driver registry, HID keyboard state and transport packets,
  the SPI transfer state machine, interrupt controller and virtio input
  decisions, timer conversions and GPIO pin bookkeeping.
- `process`, `thread`, `sync`, `log`, `print`: process and thread
  bookkeeping (which segments of an executable to load, and the layout of
  the page that holds a process's arguments and environment), the spin lock word protocol, log levels and console output.

`app/main.rs` is the command-line tool that reads an ELF image and writes
its symbol file. The tests are under `tests/`.
