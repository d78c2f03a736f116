//! A verified file-backed store of "heads": opaque keys recorded as marker
//! files in a directory, one file per key. The library holds the store's
//! logic — the key codec, marker-name computation, and directory-listing
//! decoding — together with proofs of its laws; the filesystem and thread
//! pool around it stay outside.

mod bytes;
mod codec;
mod enumerate;
mod errors;
mod laws;
mod store;

pub use bytes::bytes_eq;
pub use bytes::lemma_bytes_deep_view;

pub use codec::UrlEncodeWrapper;
pub use codec::byte_is_unreserved;
pub use codec::decode;
pub use codec::decoded_key;
pub use codec::encoded_key;
pub use codec::is_unreserved;
pub use codec::lemma_codec_round_trip;
pub use codec::lemma_decoded_key_canonical;
pub use codec::lemma_encoded_key_injective;
pub use codec::lemma_percent_decoded_canonical;
pub use codec::lemma_percent_round_trip;
pub use codec::percent_decoded;
pub use codec::percent_encoded;

pub use enumerate::EntryKind;
pub use enumerate::classify_entry;
pub use enumerate::has_head_prefix;
pub use enumerate::head_prefix;
pub use enumerate::heads_from_listing;
pub use enumerate::heads_spec;

pub use errors::Error;

pub use laws::eq_to;
pub use laws::lemma_add_idempotent;
pub use laws::lemma_add_is_head;
pub use laws::lemma_add_preserves_wf;
pub use laws::lemma_empty_heads;
pub use laws::lemma_heads_count;
pub use laws::lemma_heads_membership;
pub use laws::lemma_marker_injective;
pub use laws::lemma_persistence;
pub use laws::lemma_remove_is_head;
pub use laws::lemma_remove_never_added;

pub use store::HeadStore;
pub use store::add_spec;
pub use store::is_head_spec;
pub use store::marker;
pub use store::marker_name;
pub use store::open_outcome;
pub use store::remove_spec;
