//! A bounded, read-only S3-compatible object client.
//!
//! [`request`] builds the requests for an object's bytes, its metadata and one
//! page of a listing, from the parts in [`uri`], [`query`] and [`authority`].
//! [`response`] reads the answers, whose headers and chunks are the subject of
//! [`header`] and [`chunked`]; [`list`] reads the pages of listings from the
//! tokens of [`xml`] and the elements of [`element`], and [`render`] shows that
//! pages are read back as they are written. [`client`] describes the exchange
//! with a host that owns the network and the keys.
//!
//! [`answer`] says which responses are read, and as what, by how a server writes
//! them; [`document`] says so of listings, from the texts of [`piece`] and the
//! elements of [`node`], and [`mark`] says what markup they may hold.
//!
//! Nothing here performs input or output: bytes come in, and bytes, values and
//! the sizes of further reads go out.

pub mod answer;
pub mod authority;
pub mod bytes;
pub mod chunked;
pub mod client;
pub mod document;
pub mod element;
pub mod error;
pub mod header;
pub mod list;
pub mod mark;
pub mod net;
pub mod node;
pub mod number;
pub mod piece;
pub mod query;
pub mod render;
pub mod request;
pub mod response;
pub mod sigv4;
pub mod text;
pub mod uri;
pub mod xml;
