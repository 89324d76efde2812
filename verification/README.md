# furrow

The building blocks of a small static site generator, written in Verus
with their behaviour stated and proved.

- `src/md.rs` renders a markdown subset (headings with anchor slugs,
  paragraphs, lists, fenced code, inline code, bold, links, tables,
  blockquotes) to HTML. `render` returns exactly `render_spec` of its input;
  `slug` is proved to produce well-formed, idempotent slugs, and code blocks
  are proved to keep their lines verbatim.
- `src/html.rs` escapes text (proved injective and free of `<`, `>`, `"`,
  `'`) and wraps a page in its shell, which is proved to hold the page's
  title and description tags.
- `src/tags.rs` proves that every `<` in rendered output opens one of the
  renderer's own tags, and that a table has one `<tr>` per kept row and a
  `<thead>` and `<tbody>` exactly when it has rows for them.
- `src/github.rs` reads star counts and descriptions out of GitHub's JSON,
  falls back when there is none, and dates the build from the clock.
- `src/date.rs` names the date a number of days after 1970-01-01 and
  writes it as `YYYY-MM-DD`; Hinnant's `civil_from_days` is proved to give
  that date, every date it gives is a real one, and later readings never
  give a date text that sorts earlier.
- `src/serve.rs` decides what the development server answers: the file a
  request asks for (never outside the site), how each request is
  answered, its MIME type, and the response head.
- `src/text.rs` holds the character-level helpers: trimming, searching,
  splitting into lines, decimal digits.
- `app/` does the I/O: curl, the filesystem, the TCP listener, and a demo
  site.
