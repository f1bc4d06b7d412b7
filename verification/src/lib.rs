//! A passive BitTorrent DHT crawler: bencode codec, compact node records,
//! DHT query handling and peer-wire metadata exchange, with the protocol
//! rules stated as contracts and proved.

pub mod bencode;
pub mod blacklist;
pub mod clock;
pub mod dht;
pub mod digest;
pub mod endpoint;
pub mod errors;
pub mod hex;
pub mod message;
pub mod metawire;
pub mod node;
pub mod rate;
pub mod sniffer;
pub mod torrent;
pub mod util;
pub mod wire;

pub use blacklist::BlackList;
pub use dht::DHT;
pub use endpoint::{Endpoint, IpAddress};
pub use errors::Error;
pub use message::Message;
pub use metawire::MetaWire;
pub use rate::Rate;
