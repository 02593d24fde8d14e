# mdopen

A local markdown preview server. `src/` is the verified library; `app/` is
the server around it.

- `src/calendar.rs` — timestamps to `YYYY-MM-DD hh:mm`, with the calendar
  laws (valid fields, the date names the timestamp back, fixed width).
- `src/text.rs` — HTML escaping (nothing markup-like survives; escaping can
  be undone) and heading anchors.
- `src/query.rs` — the request target's query, the `sort` parameter and the
  listing orders.
- `src/decode.rs` — percent-decoding of request paths.
- `src/paths.rs` — request paths as paths below the served directory:
  trimming, components, breadcrumbs, joins, file names, extensions.
- `src/listing.rs` — directory listings and their stable sort.
- `src/routes.rs` — routing, content types, assets, error pages, and the
  plan for answering a file request.
- `src/markdown.rs` — markdown rendering: mermaid diagrams and heading
  anchors are rewritten in the parsed event stream.

`app/` reads requests and files, renders the page templates and responds.
