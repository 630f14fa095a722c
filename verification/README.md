# commonplace

A long-term notebook for agents: one markdown file per topic, one dated line
per entry, near-duplicate entries consolidated (reaffirmed with a `[×N]`
counter, or superseded with an audit record), and hybrid keyword + semantic
search.

## Layout

- `src/` — the library, verified with Verus. Every public function states what
  it returns in its `ensures`, over `Seq<char>` views and spec functions; the
  two that read the clock (`today`, `today_day`) state their result as the
  date or day of some time on the system clock; which time was read is not
  named.
  - `text.rs` — characters, prefixes, occurrences, `str::lines` semantics.
  - `decimal.rs` — rendering and reading unsigned decimal numbers.
  - `calendar.rs` — day numbers since 1970-01-01 and `YYYY-MM-DD` dates.
  - `store.rs` — topic names, topic file text: appending, listing, counting,
    forgetting and rewriting lines.
  - `consolidate.rs` — the entry line format `- date: body [×N]`, the
    reaffirm / supersede / append decision, the audit record.
  - `bm25.rs` — tokenization, the keyword index and its binary saved form.
  - `cli.rs` — what each command's arguments ask for, and usage errors.
  - `embeddings.rs` — the key under which an entry's embedding is stored, and
    how the cached model's directory is recognised by name.
- `app/` — the command-line program: files, the SQLite embedding store, the
  local embedding model, and the floating-point parts of ranking (BM25
  scores, cosine similarity, rank fusion, recency and reinforcement boost).
- `tests/` — tests of the library on concrete values.

Properties that span several functions are stated and proved as `lemma_*`
proof functions next to the code they are about, for example that a saved
index reads back as the same index, that appending an entry and reading the
file gives the old entries followed by the new one, and that parsing a
rendered entry line gives back its date, body and counter.
