# fingerprint

Context-based authentication: two devices record the same sound, derive a key
from its fingerprint, and use a Reed-Solomon code over GF(2^m) as a fuzzy
commitment so that the receiver can recover a message sealed with the
sender's key when the two keys differ in a few symbols.

Layout:

- `src/` — the verified library.
  - `gf.rs`, `poly.rs`, `gfpoly.rs`, `rref.rs`: GF(2^m) arithmetic through
    logarithm tables, polynomials over it, and Gauss-Jordan elimination.
  - `rs.rs`: the Reed-Solomon encoder and decoder (syndromes, the Berlekamp
    iteration, error positions and values).
  - `bits.rs`, `hash.rs`, `pairing.rs`: conversions between samples, bits,
    bytes and symbols, SHA-512 digests, and the framing of what the devices
    exchange.
  - `outcome.rs`: the result of an operation as the contracts see it (a
    value, a rejection, or a panic).
  - `field_laws.rs`, `gf256.rs`, `poly_laws.rs`, `div_laws.rs`, `rs_laws.rs`,
    `decode_laws.rs`: the laws of the field (and that GF(16) and GF(256) with
    their usual reduction polynomials are fields), of polynomial arithmetic,
    of division, of the code, and single-error correction; `lfsr_laws.rs`:
    linear recurrences and what the Berlekamp iteration finds for a pattern
    of at most `(n - k) / 2` errors; `rref_laws.rs`: elimination solves a
    square system with only the trivial homogeneous solution;
    `correction_laws.rs`: decoding a codeword with at most `(n - k) / 2`
    errors gives the codeword back.
- `tests/` — tests of the library.
- `app/` — the program: audio capture (ALSA), WAV and text files, the
  floating-point fingerprint (FFT), and the network exchange.

Run the program with a mode (`r` to wait for a request, `p` to send a
pairing attempt, `s` to send a message request), an address, and the name of
the recording device.
