# sw_ibm1130_emulator

A verified emulator for the IBM 1130 instruction subset that the 1130 code
generator produces.

- `src/word.rs`: 16-bit word arithmetic (wrapping, two's complement, the
  32-bit ACC/EXT pair, truncating division, shifts) stated over integers.
- `src/state.rs`: `CpuState`, its model `CpuView`, index registers and the
  register pair.
- `src/memory.rs`: word-addressed `Memory` with big-endian byte loading and
  fetching, and `decode_at`.
- `src/insn.rs`: decoded `Instruction` and `Opcode`.
- `src/exec.rs`: the meaning of every instruction (`execute_spec`),
  `execute`, `step`, `run`, and the laws that every step keeps.
- `app/lib.rs`: the emulator wired to the `sw_ibm1130_isa` decoder.

The library takes the instruction decoder as a function from the four bytes
at an address to the instruction there and its length in bytes, so every
contract holds for whatever decoder is supplied.
