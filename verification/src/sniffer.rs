use vstd::prelude::*;
use vstd::string::{StrSliceExecFns, StringExecFns, is_ascii_spec_bytes};
use crate::bencode;
use crate::bencode::grammar::{decode, encode};
use crate::bencode::model::Bencode;
use crate::bencode::value::{Dict, Value};
use crate::blacklist::{
    BlackList, BlackListState, Entry, inserted, is_listed, peer_key, purged, refreshed,
};
use crate::hex::{ascii_chars, hex_of_bytes, lemma_hex_of_bytes_ascii};
use crate::errors::Error;
use crate::message::{Message};
use crate::metawire::MetaWire;
use crate::torrent::{Torrent, torrent_of};
use crate::wire::{bind, bound};

verus! {

/// Where the metadata of a torrent is kept, below the directory of all
/// torrents: two directories named by the first four digits of the
/// infohash in hexadecimal, then the file.
#[derive(Debug)]
pub struct TorrentPath {
    pub first: String,
    pub second: String,
    pub file: String,
}

/// What a path is.
pub struct PathModel {
    pub first: Seq<char>,
    pub second: Seq<char>,
    pub file: Seq<char>,
}

impl View for TorrentPath {
    type V = PathModel;

    open spec fn view(&self) -> PathModel {
        PathModel { first: self.first@, second: self.second@, file: self.file@ }
    }
}

/// The path for the infohash that `hex` writes in hexadecimal:
/// `hex[0..2]`, `hex[2..4]`, and `hex` followed by `.torrent`.
pub open spec fn path_of_hex(hex: Seq<char>) -> PathModel {
    PathModel { first: hex.subrange(0, 2), second: hex.subrange(2, 4), file: hex + ".torrent"@ }
}

/// The path for the infohash that `infohash_hex` writes in hexadecimal, or
/// `None` where that is not ASCII text of four characters or more.
pub fn join_torrent_path(infohash_hex: &str) -> (r: Option<TorrentPath>)
    ensures
        match r {
            Some(path) => infohash_hex.is_ascii() && infohash_hex@.len() >= 4 && path@
                == path_of_hex(infohash_hex@),
            None => !infohash_hex.is_ascii() || infohash_hex@.len() < 4,
        },
{
    if !infohash_hex.is_ascii() {
        return None;
    }
    proof {
        is_ascii_spec_bytes(infohash_hex);
    }
    if infohash_hex.as_bytes().len() < 4 {
        return None;
    }
    let first = String::from_str(infohash_hex.substring_ascii(0, 2));
    let second = String::from_str(infohash_hex.substring_ascii(2, 4));
    let mut file = String::from_str(infohash_hex);
    file.append(".torrent");
    Some(TorrentPath { first, second, file })
}

/// What is written to the file of a torrent: the dictionary `{info: m}`,
/// encoded, where `m` is what `meta` decodes to. The keys of every
/// dictionary in it are in ascending order.
pub open spec fn file_contents(meta: Seq<u8>) -> Result<Seq<u8>, Error> {
    match decode(meta) {
        Err(e) => Err(Error::Bencode(e)),
        Ok(m) => Ok(encode(Bencode::Dict(bound(Seq::empty(), "info", m)))),
    }
}

/// The bytes to write to the file of a torrent whose metadata is `meta`.
pub fn store_torrent(meta: &[u8]) -> (r: Result<Vec<u8>, Error>)
    ensures
        match file_contents(meta@) {
            Ok(bytes) => r matches Ok(x) && x@ == bytes,
            Err(e) => r matches Err(x) && x == e,
        },
{
    let m = match bencode::from_bytes(meta) {
        Ok(m) => m,
        Err(e) => {
            return Err(Error::Bencode(e));
        },
    };
    let mut d = Dict::new();
    bind(&mut d, "info", m);
    match bencode::to_bytes(&Value::Dict(d)) {
        Ok(bytes) => Ok(bytes),
        Err(e) => Err(Error::Bencode(e)),
    }
}

/// What happened outside.
pub enum Event {
    /// The DHT engine saw an announcement.
    Announced(Message),
    /// It was looked up whether the file for the announcement exists.
    Looked(Message, bool),
    /// The metadata for the announcement was fetched.
    Fetched(Message, Vec<u8>),
    /// The fetch for the announcement failed.
    Failed(Message),
}

/// What is to be done next.
pub enum Command {
    /// Nothing: the announcement is dropped, or the work on it is over.
    Skip,
    /// Look up whether the file at this path exists.
    Look(Message, TorrentPath),
    /// Fetch the metadata in this session.
    Fetch(MetaWire),
    /// Write the bytes to the file of the torrent, where there are any, and
    /// print the torrent, where there is one.
    Store(Result<Vec<u8>, Error>, Result<Torrent, Error>),
}

/// What `event` leads to at `now`: the blacklist after it, and the command.
///
/// An announcement is dropped if its peer is on the blacklist, or if its
/// infohash has less than two bytes, which is too short for a path; else the
/// file is looked up. A file
/// that exists ends the work; else the metadata is fetched. Metadata that
/// was fetched is stored and parsed. A fetch that failed puts the peer on
/// the blacklist.
pub open spec fn stepped(
    before: BlackListState,
    timeout: u64,
    event: Event,
    now: u128,
    after: BlackListState,
    command: Command,
) -> bool {
    &&& after.capacity == before.capacity
    &&& match event {
        Event::Announced(msg) => {
            &&& after.entries == refreshed(purged(before.entries, now), peer_key(msg.peer))
            &&& if is_listed(before.entries, peer_key(msg.peer), now) {
                command is Skip
            } else {
                match command {
                    Command::Look(m, path) => m@ == msg@ && path@ == path_of_hex(
                        ascii_chars(hex_of_bytes(msg.infohash@)),
                    ),
                    Command::Skip => msg.infohash@.len() < 2,
                    _ => false,
                }
            }
        },
        Event::Looked(msg, exists) => {
            &&& after == before
            &&& if exists {
                command is Skip
            } else {
                command matches Command::Fetch(wire) && wire@.peer == msg.peer && wire@.infohash
                    == msg.infohash@ && wire@.timeout == timeout && wire@.pieces.len() == 0
            }
        },
        Event::Fetched(msg, meta) => {
            &&& after == before
            &&& command matches Command::Store(file, torrent)
            &&& match file_contents(meta@) {
                Ok(bytes) => file matches Ok(x) && x@ == bytes,
                Err(e) => file matches Err(x) && x == e,
            }
            &&& exists|sep: Seq<char>|
                match #[trigger] torrent_of(meta@, sep) {
                    Ok(t) => torrent matches Ok(x) && x@ == t,
                    Err(e) => torrent matches Err(x) && x == e,
                }
        },
        Event::Failed(msg) => {
            &&& command is Skip
            &&& after.entries == inserted(
                purged(before.entries, now),
                peer_key(msg.peer),
                now,
                before.capacity,
            )
        },
    }
}

/// The loop that turns announcements into stored torrents, without its
/// waiting: what each event leads to.
pub struct Sniffer {
    blacklist: BlackList,
    timeout: u64,
}

impl Sniffer {
    /// The peers that misbehaved.
    pub closed spec fn blacklist(&self) -> BlackListState {
        self.blacklist@
    }

    /// The seconds that each operation of a fetch may take.
    pub closed spec fn timeout(&self) -> u64 {
        self.timeout
    }

    /// A loop with an empty blacklist for `blsize` peers, whose fetches
    /// allow `timeout` seconds for each operation.
    pub fn new(blsize: usize, timeout: u64) -> (s: Sniffer)
        ensures
            s.blacklist().entries == Seq::<Entry>::empty(),
            s.blacklist().capacity == blsize,
            s.timeout() == timeout,
    {
        Sniffer { blacklist: BlackList::new(blsize), timeout }
    }

    /// What `event` leads to now. The outcome is that of `step_at` for the
    /// time that the clock of the blacklist shows.
    pub fn step(&mut self, event: Event) -> (command: Command)
        ensures
            exists|now: u128|
                stepped(
                    old(self).blacklist(),
                    old(self).timeout(),
                    event,
                    now,
                    final(self).blacklist(),
                    command,
                ),
            final(self).timeout() == old(self).timeout(),
    {
        let now: u128 = self.blacklist.now();
        let ghost shown = event;
        let command = self.step_at(event, now);
        proof {
            assert(stepped(
                old(self).blacklist(),
                old(self).timeout(),
                shown,
                now,
                self.blacklist(),
                command,
            ));
        }
        command
    }

    /// What `event` leads to at `now`, in nanoseconds since the loop was
    /// made.
    pub fn step_at(&mut self, event: Event, now: u128) -> (command: Command)
        ensures
            stepped(
                old(self).blacklist(),
                old(self).timeout(),
                event,
                now,
                final(self).blacklist(),
                command,
            ),
            final(self).timeout() == old(self).timeout(),
    {
        match event {
            Event::Announced(msg) => {
                if self.blacklist.contains_at(&msg.peer, now) {
                    return Command::Skip;
                }
                let hex = msg.infohash_hex();
                proof {
                    lemma_hex_of_bytes_ascii(msg.infohash@);
                }
                match join_torrent_path(hex.as_str()) {
                    Some(path) => Command::Look(msg, path),
                    None => Command::Skip,
                }
            },
            Event::Looked(msg, exists) => {
                if exists {
                    Command::Skip
                } else {
                    Command::Fetch(MetaWire::new(&msg, self.timeout))
                }
            },
            Event::Fetched(msg, meta) => {
                let file = store_torrent(meta.as_slice());
                let torrent = crate::torrent::from_bytes(meta.as_slice());
                Command::Store(file, torrent)
            },
            Event::Failed(msg) => {
                self.blacklist.insert_at(msg.peer, now);
                Command::Skip
            },
        }
    }
}

} // verus!
