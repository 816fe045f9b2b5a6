//! A library that lets a Linux ELF executable keep a secret inside its own
//! image: the secret is split across reserved data sections, and every
//! fragment is encrypted with a key derived from the hash of the code
//! section, so that patching the code destroys the stored secret.

pub mod crypto;
pub mod elf;
pub mod error;
pub mod json;
pub mod key_store;
pub mod metadata;
pub mod params;
mod random;

pub use error::Error;
pub use key_store::KeyStore;
pub use metadata::KeyMetadata;
pub use params::CryptoParams;
