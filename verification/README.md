# tingfm_radio

The verified core of the TingFM radio player and its user-script host.

- `src/` is the library, checked by Verus:
  - `parser` reads a user script's `==UserScript==` header and code;
  - `line_endings` proves that a script with CR LF line endings parses like
    the same script with LF endings;
  - `matcher` decides whether a URL is accepted by `@match`/`@include`/`@exclude` patterns;
  - `storage` lays scripts out in table rows, reads them back, and decides
    which scripts run on a page and what an install replaces;
  - `stream_proxy` builds proxied stream URLs, reads proxied requests and
    keeps the lazily started proxy server, and picks the headers of its
    answers (the upstream text headers and `Access-Control-Allow-Origin: *`);
  - `gm_api` holds the decisions of the `GM_xmlhttpRequest` bridge;
  - `radio` holds the catalog types and the favorites rules;
  - `headers`, `json`, `url_codec` and `text` are shared helpers.
- `app/` is the desktop program around it: windows, commands, SQLite,
  files, HTTP and the proxy server thread.
- `tests/` exercises the library with concrete values.
