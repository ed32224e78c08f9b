# ocastaproxy

A web proxy that serves other sites under `/{encoding}/{address}` paths
(`b64` encodes the address in base64, any other encoding keeps it as it is).

`src/` is the verified library:

- `rewrite` — the links, CSS `url(...)` references and script location
  references of proxied pages, the HTML rewriter (run by lol_html), and the
  choice of rewriting by content type;
- `html` — what becomes of each element and text chunk of an HTML page: its
  attributes, its removal, the script put into `head`, the rewritten text;
- `css_laws` — the laws of the style sheet rewriter;
- `client` — the address rules of the browser client (`url_wrap`,
  `url_unwrap`, `encode`, `decode`, the page location, websocket addresses);
- `server` — the gateway redirect and the upstream address of a proxy path;
- `headers` — which request and response headers are passed on;
- `websocket` — the query of a websocket request, the upstream handshake
  and the relay decisions;
- `text` — operations on character sequences;
- `bindings` — the calls into std, `base64`, `url` (through `reqwest`) and
  `lol_html` whose contracts are trusted.

`app/` is the server (axum routes, reqwest requests, the websocket relay
loop) and the wasm client glue, which makes the browser's `btoa` and `atob`
calls and hands their results to the library. The server reads
`static/index.html` and `static/client.js` once at start and refuses to start
without them.
