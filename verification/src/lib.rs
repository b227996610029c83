//! The verified core of a BitTorrent client.
//!
//! Everything the client decides lives here: the bencode grammar, torrent
//! metadata, piece bookkeeping, the peer wire protocol, tracker messages and
//! the disk request queue. Sockets, files, channels and the terminal belong to
//! the application around it.
pub mod bencode;
pub mod bencode_laws;
pub mod bits;
pub mod buffers;
pub mod byte_slices;
pub mod chance;
pub mod client_laws;
pub mod conversion;
pub mod digest;
pub mod download_laws;
pub mod event_handler;
pub mod file_sections;
pub mod files;
pub mod handshake;
pub mod messages;
pub mod peer;
pub mod peer_protocol;
pub mod piece_check;
pub mod piece_check_laws;
pub mod piece_data;
pub mod piece_laws;
pub mod piece_set;
pub mod protocol_laws;
pub mod protocol_model;
pub mod reading_laws;
pub mod refusal_laws;
pub mod text;
pub mod torrent_file;
pub mod torrent_info;
pub mod tracker;
pub mod tracker_laws;
pub mod types;
pub mod ui;
pub mod upload_laws;
pub mod value_laws;
pub mod wire;
