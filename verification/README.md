# nextppp

An obfuscated proxy transport whose protocol logic is verified with Verus.

* `src/` is the library. Every function states what it computes in its
  contract, over mathematical models of the data, and Verus proves it.
  * `base94`: the printable codec and base94 numbers.
  * `crypto`: the generator, permutation, delta and mask transforms (`ssea`),
    and the session ciphers (`cipher`) over primitives of other crates
    (`primitives`).
  * `frame`: the checksum, the base94 envelope and the binary packet.
  * `codec`: the two directions of a connection, from messages to wire packets
    and back.
  * `handshake`, `transmission`: session-id packets, the flag canary, and the
    handshake as a state machine.
  * `addr`, `endpoint`, `rule`, `socks5`, `http`, `pump`, `service`,
    `settings`: the rules of the proxy around the transport.
  * `text`, `bytes`, `stream`, `rng`, `fmt`: helpers.
* `tests/` runs the library.
* `app/` is the program: sockets, threads, files and the command line around
  the library.

The central laws are proof functions named `law_*`: what one side sends the
other side reads (`codec::law_transmission_roundtrip`,
`codec::law_stream_delivers_in_order`), a handshake leads both sides to the same
session (`transmission::law_handshake_agrees`), and each transform has its
inverse.

Functions and types that other crates compute stand behind small wrappers with
stated contracts: AES, ChaCha20 and HKDF in `crypto::primitives`, random draws in
`rng`, address text in `addr`, and a few string functions in `text`.
