# site_server

The request logic of a small personal web server, verified with Verus.

- `src/` is the verified library:
  - `query.rs`: the fields of a URL's query (`Query`), its path segments
    (`Path`) and `QueryMap`;
  - `decode.rs`: the percent-decoding that query values and page names go through;
  - `router.rs`: which part of the server answers a request;
  - `particles.rs`: routing of the particles game backend and the changes
    made to a room's file (moves, winner, players, new rooms);
  - `static_site.rs`: choosing the file of the static site for a request;
  - `webring.rs`: the webring redirector;
  - `json.rs`: the JSON documents the handlers read and change;
  - `text.rs`: character helpers.
- `app/` is the server itself: TLS listener, logging, files, and the
  conversions between the library's types and `serde_json` / `tiny_http`.
- `tests/` runs the library on concrete requests and documents.
