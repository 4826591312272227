# espmonitor

Decoding of crash dumps in the serial output of ESP chips, with RISC-V cores, into
backtraces.

A panic handler that can't produce a backtrace on the device prints the registers and
the raw stack memory instead. The monitor has the ELF file of the firmware, and thus
the call frame information to unwind the stack with, and the debug info to name the
functions it finds.

- `src/` is the library, verified with Verus:
  - `resolving_printer` takes the bytes that the device sends and lists the pieces of
    text to print: the output itself, the names of the addresses in it (`parser`), and
    the backtraces of the stack dumps in it. `printer_laws` states what holds of the
    printed output as a whole.
  - `utf8_merger` and `line_endings` turn the bytes into text, wherever they are cut.
  - `stack_dump` collects the dumps of `esp-backtrace` and of ESP-IDF line by line, and
    formats backtraces.
  - `cfi_unwind` walks the call chain. It takes the unwind rules from `cfi_table` and
    `unwind_data`, looks for calls in the code with `call_graph` and `riscv`, and keeps
    the registers in `registers`. `scan` bounds how long it looks.
  - `symbols` looks up function names and source locations.
  - `object_file`, `cfi_section`, `debug_info` and `patterns` wrap what the crates
    `object`, `gimli`, `addr2line` and `regex` compute; their contracts are trusted.
- `tests/` runs the library, among others on a made-up firmware.
- `app/` connects the printer to the terminal.
