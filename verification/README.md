# cache-lens

Reads HTTP response headers and says whether a cache may store the
response, how many seconds of freshness are left, and why; evaluates
`If-None-Match` / `If-Modified-Since` revalidation.

The library (`src/`) is verified with Verus: every function states what it
returns over a model of its input as character sequences, and the laws the
behaviour rests on are proved there.

- `text.rs`: trimming, splitting, ASCII case, as `str` does them.
- `number.rs`: integer parsing and decimal output.
- `date.rs`: RFC 1123 dates; the Gregorian day count and its laws.
- `validators.rs`: ETag weak comparison, `If-None-Match`, `304` decisions.
- `cache_control.rs`: `Cache-Control` directives.
- `headers.rs`: raw header text and redirect chains.
- `analysis.rs`: the cacheability and freshness verdict.
- `report.rs`: the JSON object and the plain-text report.
- `json.rs`: JSON values, how they are written, and a reader for such text.

`app/main.rs` is the command-line front end (arguments, files, stdin,
printing).
