# mfsk_core

Decoders and packet framing for weak-signal MFSK radio modes, written in
[Verus](https://github.com/verus-lang/verus): the decisions of the receive and
transmit paths are executable Rust whose contracts are proved.

## Layout

- `src/` — the library.
  - `bits`, `scalar`, `dotprod`, `fft`, `select`, `dsp` — bit strings, fixed-point
    numbers, transform lengths, ranking and suppression of candidates.
  - `fec` — LDPC codes as tables, belief propagation, the fourteen bit check.
  - `ft8` — spectrogram, coarse search, refinement, symbol spectra, and the
    staircase of decoding attempts.
  - `jt9`, `wspr` — soft symbols and scans of these modes.
  - `uvpacket` — framing, puncturing, interleaving, transmitter and receiver of
    the packet mode.
  - `embedded` — slot pipeline, incremental spectrogram, display lists and board
    set-up of a handheld receiver.
- `tests/` — tests of the library through its public functions.
- `app/` — ordinary Rust around the library: floating-point signal processing,
  threads, displays and buses.

## Conventions

The library holds no floating-point numbers. A score enters it as an *order key*
(`select::order_key`), an integer that sorts as the number does. Work that needs
floating point, such as a transform or a soft value, comes in as a function; the
contract of the caller then says which values the function was asked for and what
became of its answers.

Public proof functions named `law_...` state what holds between several
functions.

Storage of fixed capacity comes from the `heapless` crate. What is believed of it
stands in `src/embedded/fixed.rs` and `src/embedded/qso.rs`.
