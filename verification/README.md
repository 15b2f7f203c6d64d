# Solar

A local-first photo manager: your photos stay on your disk, in your folders, and the program
only ever reads them. This is its backend, written in Verus: what the program decides is
stated in contracts and proved.

- `src/` is the library. `library.rs` holds the data and its invariant; `scan.rs`, `roots.rs`,
  `photos.rs`, `curation.rs`, `places.rs` and `details.rs` deal with photos; `cluster.rs`,
  `cluster_index.rs` and `evidence.rs` group faces by appearance; `identities.rs`, `groups.rs`,
  `recognition.rs`, `growth.rs` and `suggestions.rs` deal with persons; `corrections.rs` is what
  the user can do about them. The promises that span several operations are in the files whose
  names end in `_laws`, or beside the operations, under names that start with `law_`.
- `tests/` runs the library on concrete values.
- `app/` is the program around it: the database file, the folder walk, the decoders, the face
  models, the threads and the window.

Embeddings are held in millionths, similarities in units of 10^-12, boxes in millionths of the
picture, and GPS degrees as exact fractions, so that every decision is made on integers.
