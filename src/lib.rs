//! A configurable base64 codec: alphabets made of byte ranges, a padding policy,
//! and an encoder and decoder whose results are stated over a mathematical model.
pub mod alphabet;
pub mod config;
pub mod laws;
pub mod messages;
pub mod padding;
pub mod ranges;
pub mod transcode;

pub use alphabet::{decode_byte, encode_byte, in_alphabet};
pub use config::{validate_config, Base64Config, Base64ConfigError, Padding};
pub use laws::lemma_round_trip;
pub use padding::{count_trailing_pad_characters, validate_base64, Base64Error};
pub use ranges::ranges_overlap;
pub use transcode::{
    chunk_iter, decode, decode_to_vec, encode, encode_to_vec, pack_triplet, unpack_triplet,
};
