# kappa-registry

A content-addressed registry. Everything is stored at an address derived from
its bytes; tags, edges, epochs and sequences are built on top, and several
protocols share one store.

- `src/` is the library, verified with Verus: every function states what it
  returns and changes, and the proofs are checked.
  - `store/` blobs, tags, edges, epochs, uploads, namespaces and identities
  - `distribution/` composition, garbage collection, reconciliation, bundles,
    filters, schemas, documents and events
  - `git/` objects, packs, deltas, refs, hooks and the smart protocol
  - `atproto/` repositories, trees, archives, sessions and the firehose
  - `body` and the `requests` modules: what a request says in JSON, and what is
    done about it
  - `identity` and `resolution`: what is asserted, and what of it stands
  - `kappa`, `merkle`, `epoch`, `canonical`, `codec`, `transaction`
    and the small modules they stand on
- `tests/` runs the library.
- `app/` is ordinary Rust around it: routes, sockets, processes and files.

What is taken from outside crates (hash functions, compression, CBOR, JSON,
gitoxide, the concurrent map) is declared where it is called, with the contract
that the proofs rest on.
