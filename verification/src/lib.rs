//! A minimal registry of uniquely identified, owned creatures ("kitties").
//!
//! The heart of the crate is a per-owner membership index: a doubly-linked
//! list of creature identifiers built entirely out of point lookups in a
//! flat key-value store, with O(1) append and O(1) removal. On top of it a
//! registry allocates identifiers, stores each creature's DNA, breeds two
//! creatures into a new one by a deterministic bit-mixing rule, and
//! transfers creatures between owners.

mod kitty;
mod owned_kitties;
mod registry;

pub use kitty::combine_dna;
pub use kitty::lemma_combine_dna_bits;
pub use kitty::spec_combine;
pub use kitty::Kitty;
pub use owned_kitties::first_opt;
pub use owned_kitties::last_opt;
pub use owned_kitties::lemma_seq_without_contains;
pub use owned_kitties::lemma_seq_without_is_filter;
pub use owned_kitties::link_at;
pub use owned_kitties::list_ok;
pub use owned_kitties::sentinel_of;
pub use owned_kitties::seq_without;
pub use owned_kitties::KittyLinkedItem;
pub use owned_kitties::OwnedKitties;
pub use registry::Error;
pub use registry::Module;
