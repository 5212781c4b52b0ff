//! Contacts: what is known of one peer.

use vstd::prelude::*;
use vstd::std_specs::cmp::PartialEqSpecImpl;
use vstd::string::StringExecFns;
use vstd::utf8::encode_utf8;
use crate::digest::sha256;
use crate::key::Key;
use crate::metric::xor_bytes;

verus! {

/// The character of one decimal digit.
pub open spec fn digit_char(d: nat) -> char {
    if d == 0 {
        '0'
    } else if d == 1 {
        '1'
    } else if d == 2 {
        '2'
    } else if d == 3 {
        '3'
    } else if d == 4 {
        '4'
    } else if d == 5 {
        '5'
    } else if d == 6 {
        '6'
    } else if d == 7 {
        '7'
    } else if d == 8 {
        '8'
    } else {
        '9'
    }
}

/// A number written in decimal without leading zeros.
pub open spec fn decimal(n: nat) -> Seq<char>
    decreases n,
{
    if n < 10 {
        seq![digit_char(n)]
    } else {
        decimal(n / 10).push(digit_char(n % 10))
    }
}

/// The canonical text of an address: the host, a colon, and the port in decimal.
pub open spec fn address_text(ip: Seq<char>, port: u16) -> Seq<char> {
    ip + seq![':'] + decimal(port as nat)
}

/// The text of one decimal digit.
fn digit_text(d: u16) -> (s: &'static str)
    requires
        d < 10,
    ensures
        s@ == seq![digit_char(d as nat)],
{
    proof {
        reveal_strlit("0");
        reveal_strlit("1");
        reveal_strlit("2");
        reveal_strlit("3");
        reveal_strlit("4");
        reveal_strlit("5");
        reveal_strlit("6");
        reveal_strlit("7");
        reveal_strlit("8");
        reveal_strlit("9");
    }
    let s = if d == 0 {
        "0"
    } else if d == 1 {
        "1"
    } else if d == 2 {
        "2"
    } else if d == 3 {
        "3"
    } else if d == 4 {
        "4"
    } else if d == 5 {
        "5"
    } else if d == 6 {
        "6"
    } else if d == 7 {
        "7"
    } else if d == 8 {
        "8"
    } else {
        "9"
    };
    assert(s@ =~= seq![digit_char(d as nat)]);
    s
}

/// Appends `n` in decimal to `out`.
fn append_decimal(out: &mut String, n: u16)
    ensures
        final(out)@ == old(out)@ + decimal(n as nat),
    decreases n,
{
    if n >= 10 {
        append_decimal(out, n / 10);
    }
    out.append(digit_text(n % 10));
    assert(out@ =~= old(out)@ + decimal(n as nat));
}

/// The canonical text of the address of `ip` and `port`.
fn format_address(ip: &String, port: u16) -> (text: String)
    ensures
        text@ == address_text(ip@, port),
{
    let mut text = ip.clone();
    proof {
        reveal_strlit(":");
    }
    text.append(":");
    append_decimal(&mut text, port);
    assert(text@ =~= address_text(ip@, port));
    text
}

/// A known peer: its network address and its identifier.
///
/// A contact has no rank of its own. Which of two contacts is closer is only
/// ever asked relative to a target key, by the distance of each to it.
#[derive(Clone, Eq, Debug)]
pub struct NodeInfo {
    pub ip: String,
    pub port: u16,
    pub id: Key,
}

impl PartialEq for NodeInfo {
    /// Two contacts are equal when they have the same address and identifier.
    fn eq(&self, other: &NodeInfo) -> (r: bool) {
        self.ip == other.ip && self.port == other.port && self.id == other.id
    }
}

impl PartialEqSpecImpl for NodeInfo {
    open spec fn obeys_eq_spec() -> bool {
        true
    }

    open spec fn eq_spec(&self, other: &NodeInfo) -> bool {
        &&& self.ip@ == other.ip@
        &&& self.port == other.port
        &&& self.id@ == other.id@
    }
}

impl NodeInfo {
    /// The contact at `ip` and `port`, identified by the hash of its address text.
    pub fn new(ip: String, port: u16) -> (node: NodeInfo)
        ensures
            node.ip == ip,
            node.port == port,
            node.id@ == sha256(encode_utf8(address_text(ip@, port))),
    {
        let addr = format_address(&ip, port);
        let id = Key::new(addr);
        NodeInfo { ip, port, id }
    }

    /// The canonical text of this contact's address, as `host:port`.
    pub fn get_address(&self) -> (text: String)
        ensures
            text@ == address_text(self.ip@, self.port),
    {
        format_address(&self.ip, self.port)
    }

    /// XOR distance between this contact's identifier and that of `other`.
    pub fn distance(&self, other: &NodeInfo) -> (d: Key)
        ensures
            d@ == xor_bytes(self.id@, other.id@),
    {
        self.id.distance(&other.id)
    }
}

} // verus!
