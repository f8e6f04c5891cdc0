//! A dotfiles tracker: maps scattered configuration files into a single
//! mirrored, version-controlled directory and back.
//!
//! The crate is organised around the pieces of one command invocation:
//! [`paths`] converts filesystem paths to their canonical location in the
//! mirror (and back), [`manifest`] records the tracked entries, [`codec`]
//! persists the manifest as structured text, [`sync`] plans the copies and
//! removals that keep the mirror current, [`repo`] drives the backing git
//! repository (profile branches, staging, commits), and [`commands`] holds
//! the command layer's arguments and decisions.
//!
//! The central guarantees are stated and proved in the library itself:
//! the path mapping inverts exactly ([`paths::lemma_file_entry_round_trip`]),
//! nothing under the managed root is ever tracked
//! ([`paths::lemma_batch_excludes_root`] and the resolvers' contracts),
//! registering a batch twice changes nothing
//! ([`manifest::lemma_add_batch_idempotent`]), removing what was never
//! tracked changes nothing ([`manifest::lemma_remove_batch_untracked`]),
//! a manifest's on-disk form is canonical in its content
//! ([`manifest::lemma_sorted_canonical`]) and survives a save and a load
//! byte for byte ([`codec::lemma_save_load_identity`]), and a commit
//! stages exactly what the diff demands, or nothing at all when nothing
//! changed ([`repo::commit_action`]).

pub mod codec;
pub mod commands;
pub mod manifest;
pub mod paths;
pub mod repo;
pub mod sync;
