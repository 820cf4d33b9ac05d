# rust_http_proxy

An HTTP reverse proxy whose core is verified with Verus.

- `src/` is the verified library:
  - `text` — lines, words, trimming, splitting, joining and decimal
    numbers over characters, each against a specification on `Seq<char>`;
  - `headers` — a header map with unique names, viewed as a `Map`;
  - `http_values` — hyper's method, URI and header values, each kept with
    the text it was parsed from;
  - `parser` — `parse_request` and `parse_response`, with laws on header
    names;
  - `metrics` — request records, latency labels and benchmark statistics
    (minimum, maximum, 95th percentile, totals);
  - `proxy` — what a connection does with the bytes it read, the request
    sent to the backend (through `hyper`'s parsers), and the response text.
- `app/` is the program around it: command line, sockets, the `hyper`
  client, timestamps, printing and the floating-point average.
- `tests/` runs the library on concrete inputs.
