//! Ranking a closed corpus of web documents.
//!
//! A seed list names the documents; the position of an address in the list
//! is the number of its document. The crawl fetches the documents that are
//! still absent (`seed`, `identity`, `worker`). The ranking reads the links
//! between the documents that are there (`links`) into a graph (`graph`),
//! runs a damped power iteration on it in fixed-point arithmetic (`rank`)
//! and lists the nodes by falling score (`report`). `text` cuts encoded
//! text into lines, and `sums` holds what is proved of sums.
//!
//! Reading and writing files, requests and the scheduling of workers are
//! left to the caller: the library computes on plain values.

pub mod graph;
pub mod identity;
pub mod links;
pub mod rank;
pub mod report;
pub mod seed;
pub mod sums;
pub mod text;
pub mod worker;
