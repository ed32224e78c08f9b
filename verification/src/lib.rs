//! Request and page rewriting for a web proxy that serves other sites under
//! `/{encoding}/{url}` paths: the URL rewriting rules of the server and of the
//! browser client, the CSS and script rewriting, header filtering, and the
//! websocket relay decisions.

pub mod bindings;
pub mod client;
pub mod css_laws;
pub mod headers;
pub mod html;
pub mod rewrite;
pub mod server;
pub mod text;
pub mod websocket;
