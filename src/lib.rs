// A DNS resolver library: the wire codec with label compression, a zone store held in
// a label trie with wildcard edges, and the decisions of the request dispatcher.
pub mod codec;
pub mod data;
pub mod db;
pub mod record;
pub mod server;
pub mod trie;
pub mod zone;
