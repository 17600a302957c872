pub mod bitfield;
pub mod choker;
pub mod coordinator;
pub mod entities;
pub mod fanout;
pub mod file_provider;
pub mod in_flight;
pub mod peer_conn;
pub mod piece_picker;
pub mod wire;
