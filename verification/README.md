# painite

Chunk generation for a block game, as a verified library and a thin native
layer around it.

- `src/` is the library. Every function carries a contract and is verified.
  The crate documentation in `src/lib.rs` says what stands where.
- `tests/` runs the library on concrete worlds, trees, records and meshes.
- `app/` is the ordinary Rust around it: floating point arithmetic, files,
  and the calls that the game makes.

Numbers of single and double precision are bit patterns in the library. It
decides which operation is done on which numbers and in which order; each
elementary operation is an `Ask`, and a closure of the caller answers it.
Contracts speak of these answers, so that they hold of any arithmetic that
answers every question, and the same question always alike.

Names that begin with `law_` are statements about the library as a whole.
