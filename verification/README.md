# ripple_reader

The text, configuration and figure-layout logic of an academic paper reader,
written in Verus: each library function states what it returns in its
contract, and Verus proves the code against it.

## Layout

- `src/` — the verified library.
  - `chars`, `order`, `pattern`: character sequences, string order and
    sorting, and the calls into the `regex` crate.
  - `text`, `text_laws`, `names`, `cli`: text normalisation (with the law
    that normalising a text without carriage returns twice gives what
    normalising it once gives), author names, id splitting, key masking.
  - `env`, `env_laws`, `provider_laws`: reading and rewriting `.env` text and
    its provider slots, with the laws that a read gives back what was written,
    that writing a provider changes only its slot's keys, that deleting one
    removes exactly its keys and keeps every other line in order, and that a
    reorder by an order naming each provider once puts the provider of slot
    `order[k]` into slot `k + 1`, keeps every other key, and keeps the lines
    that assign no provider key first and in order (for text whose lines end
    in no carriage return). Only the first 100 API keys read back, as the
    reader looks at no more.
    The read-back laws hold for values without `"`, `\` or newlines (the
    writer escapes `"` and `\`, and the reader does not undo the escape) and
    without a non-ASCII white-space character at either end (whether the
    writer quotes such a value depends on `char::is_alphanumeric` outside
    ASCII, which is named and not stated).
  - `config`: settings from the environment, with the first error reported.
  - `extract`, `mdfmt`: section extraction from paper text (each section a
    run of consecutive paragraphs, defined on every text with a visible
    character; the header is the start of the text), and the image layout
    rewrite of Markdown (one result per image, no two right floats in a
    row).
  - Where a decision follows a call into `regex` or a Unicode case or class
    lookup, a public function takes the call's result as an argument and
    makes the decision (`decide_caption`, `decide_caption_header`,
    `caption_key_of_match`, `fuzzy_caption_key`, `first_flag_from`,
    `decide_header_boundary`, `intro_level_from`, `image_ref_from_groups`,
    and others).
  - `mineru`, `captions`, `layout`, `validate`, `caption_swap`, `merge`: the
    caption and figure logic of the layout post-processing.
  - `propagate`: caption propagation over the block graph (components in
    search order, barrier shortest paths, nearest anchor with ties left
    alone).
  - `graph`, `stats`, `query`, `author_stats`, `authors`, `logging`: shortest
    paths, date trees and tag dashboards, SQL assembly, author tallies, the
    author search policy, and per-paper log registries.
- `tests/` — tests run against the compiled library.
- `app/` — the command-line front end: files, the environment, images,
  external tools and floating-point geometry around the library.
