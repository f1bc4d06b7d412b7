use vstd::prelude::*;
use vstd::slice::slice_to_vec;
use vstd::string::StringExecFns;
use crate::endpoint::{Endpoint, IpAddress};
use crate::hex::{ascii_chars, hex_digit, hex_of_bytes};

verus! {

/// An announcement: a peer that says it has the torrent with this infohash.
#[derive(Debug)]
pub struct Message {
    pub peer: Endpoint,
    pub infohash: Vec<u8>,
}

/// What an announcement is: the peer and the bytes of the infohash.
pub struct Announcement {
    pub peer: Endpoint,
    pub infohash: Seq<u8>,
}

impl View for Message {
    type V = Announcement;

    open spec fn view(&self) -> Announcement {
        Announcement { peer: self.peer, infohash: self.infohash@ }
    }
}

impl Clone for Message {
    /// A copy with the same peer and the same infohash.
    fn clone(&self) -> (r: Message)
        ensures
            r@ == self@,
    {
        Message { peer: self.peer, infohash: slice_to_vec(self.infohash.as_slice()) }
    }
}

/// The hexadecimal digit `d` as text.
fn digit_text(d: u8) -> (r: &'static str)
    requires
        d < 16,
    ensures
        r@ == seq![hex_digit(d as nat) as char],
{
    proof {
        reveal_strlit("0");
        reveal_strlit("1");
        reveal_strlit("2");
        reveal_strlit("3");
        reveal_strlit("4");
        reveal_strlit("5");
        reveal_strlit("6");
        reveal_strlit("7");
        reveal_strlit("8");
        reveal_strlit("9");
        reveal_strlit("a");
        reveal_strlit("b");
        reveal_strlit("c");
        reveal_strlit("d");
        reveal_strlit("e");
        reveal_strlit("f");
    }
    let r = match d {
        0 => "0",
        1 => "1",
        2 => "2",
        3 => "3",
        4 => "4",
        5 => "5",
        6 => "6",
        7 => "7",
        8 => "8",
        9 => "9",
        10 => "a",
        11 => "b",
        12 => "c",
        13 => "d",
        14 => "e",
        _ => "f",
    };
    proof {
        assert(r@ =~= seq![hex_digit(d as nat) as char]);
    }
    r
}

impl Message {
    /// The announcement of `hash` by the peer at `ip` and `port`.
    pub fn new(ip: IpAddress, port: u16, hash: &[u8]) -> (m: Message)
        ensures
            m@ == (Announcement { peer: Endpoint { ip, port }, infohash: hash@ }),
    {
        Message { peer: Endpoint::new(ip, port), infohash: slice_to_vec(hash) }
    }

    /// The infohash in lowercase hexadecimal, two digits for each byte.
    pub fn infohash_hex(&self) -> (hex: String)
        ensures
            hex@ == ascii_chars(hex_of_bytes(self.infohash@)),
            hex@.len() == 2 * self.infohash@.len(),
    {
        let mut out = String::new();
        let mut i: usize = 0;
        proof {
            assert(out@ =~= ascii_chars(hex_of_bytes(self.infohash@.take(0))));
        }
        while i < self.infohash.len()
            invariant
                i <= self.infohash.len(),
                out@ == ascii_chars(hex_of_bytes(self.infohash@.take(i as int))),
            decreases self.infohash.len() - i,
        {
            let b: u8 = self.infohash[i];
            out.append(digit_text(b / 16));
            out.append(digit_text(b % 16));
            proof {
                let before = hex_of_bytes(self.infohash@.take(i as int));
                let next = hex_of_bytes(self.infohash@.take(i + 1));
                assert(next.len() == before.len() + 2);
                assert forall|k: int| 0 <= k < next.len() implies out@[k]
                    == #[trigger] next[k] as char by {
                    if k < before.len() {
                        assert(next[k] == before[k]);
                    } else if k == 2 * i {
                        assert(k / 2 == i && k % 2 == 0);
                    } else {
                        assert(k / 2 == i && k % 2 == 1);
                    }
                }
                assert(out@ =~= ascii_chars(next));
            }
            i += 1;
        }
        proof {
            assert(self.infohash@.take(i as int) =~= self.infohash@);
        }
        out
    }
}

} // verus!
