# miden_tools

Two pieces of the Miden tool chain, as a library verified with Verus.

`compat` compares what two versions of a package publish. It tells whether old compiled callers
still find the same code (`executable`), whether Fast procedures keep their layout (`fast_abi`),
whether source written against the package needs changes (`source`), and whether one version names
one dependency commitment (`release`, which also runs the checks of a release). Signatures and types
are compared by a canonical form (`canonical`) that ignores field labels and layout. What that
amounts to is stated and proved in `canonical_laws`, `normal_laws`, `struct_laws`, `token_laws` and
`release_laws`.

`falcon` generates NTRU bases for Falcon keys. The arithmetic of the ring `Z[X] / (X^n + 1)` is in
`ring`, the solver of the equation `f G - g F = q` in `ntru` (with laws in `ntru_laws`), and key
generation in `keygen`. The
solver asks its caller for the quotients that need floating-point arithmetic; whatever the answers
are, a basis that comes out satisfies the equation.

`app` is the command-line program and the floating-point part of key generation.

The library uses `num::BigInt` through the wrappers in `falcon::bigint`, and a few functions of the
standard library on characters and strings, declared in `compat::text`. Their contracts are not
proved here.
