//! A LAN proxy between an IPTV provider's portal and Android TV clients:
//! it logs in to the portal, caches the channel list and the programme
//! guide, rewrites multicast streams through udpxy, and lets clients in with
//! local bearer tokens paired from the TV.
pub mod text;
pub mod stream;
pub mod hex;
pub mod auth;
pub mod cache;
pub mod pairing;
pub mod config;
pub mod pairs;
pub mod split;
pub mod ctc;
pub mod numbering;
pub mod portal;
pub mod http_body;
pub mod server;
pub mod backend;
