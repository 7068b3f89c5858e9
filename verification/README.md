# kogu

The backend of a read-only dictionary of Mandarin (zh), Cantonese (yue) and Japanese (ja),
with its query normalisation, ranking, character-graph and entry-assembly logic written in
Verus and proved against its contracts.

## Layout

- `src/` — the verified library (crate `kogu`).
  - `chars`, `script`, `fold`, `gloss`, `words`: character classes, script detection and kana
    folding, the pinyin / romaji / FTS / LIKE / GLOB query keys, gloss cleaning, matching and
    stemming, and the meaning words used to compare glosses.
  - `graph`: the union-find over identity-variant edges and the backbone-key index
    (`VariantGraph`), with the laws that variant spellings share a key and that a class is
    exactly a chain of identity edges.
  - `rank`, `plan`: match tiers and weights, the best match per lexeme, the English variety
    reflow, and the plans (lookups and keys) of search, wildcard search and autocomplete.
  - `entry`, `relation`, `forms`, `segment`, `showcase`: the decisions behind an entry page
    (which links, in which order, which origin accounts), the cognate / false-friend
    classifier, a character's script family, decomposition and radical facts, the greedy
    segmenter, and the homepage showcase.
  - `params`, `proxy`, `model`: request parameters, what the proxy endpoints accept and send
    on, and the response types.
- `app/` — the HTTP server (axum), the SQLite access (rusqlite / r2d2), the proxies
  (reqwest), OCR, the OpenAPI document, and the floating-point scoring; it calls the library
  for every decision.
- `tests/` — tests of the library on concrete values.
