//! Client addresses, CIDR blocks and pattern matching, over the outside
//! crates that parse and match them.

use vstd::prelude::*;
use crate::value::IpAddress;

verus! {

/// A client address with the text the host reports for it.
#[derive(Debug)]
pub struct ClientIp {
    pub addr: IpAddress,
    pub text: String,
}

/// A parsed CIDR block: the IPv6 flag, the network address, and the prefix length.
pub type CidrBlock = (bool, u128, u8);

/// What `cidr::IpCidr`'s parser yields for a text.
pub uninterp spec fn ip_cidr_of(s: Seq<char>) -> Option<CidrBlock>;

/// What `cidr::Ipv4Cidr`'s parser yields for a text: network and prefix length.
pub uninterp spec fn ipv4_cidr_of(s: Seq<char>) -> Option<(u32, u8)>;

/// Whether `pattern` compiles as a `regex` pattern and matches somewhere in `text`.
pub uninterp spec fn regex_finds(pattern: Seq<char>, text: Seq<char>) -> bool;

/// Relies on `<cidr::IpCidr as FromStr>::from_str`: a block whose prefix
/// length fits its family.
#[verifier::external_body]
pub(crate) fn parse_ip_cidr(s: &str) -> (r: Option<CidrBlock>)
    ensures
        r == ip_cidr_of(s@),
        r matches Some((v6, _, len)) ==> if v6 { len <= 128 } else { len <= 32 },
        r matches Some((false, net, _)) ==> net <= u32::MAX,
{
    match s.parse::<cidr::IpCidr>() {
        Ok(cidr::IpCidr::V4(c)) => Some((false, u32::from(c.first_address()) as u128, c.network_length())),
        Ok(cidr::IpCidr::V6(c)) => Some((true, u128::from(c.first_address()), c.network_length())),
        Err(_) => None,
    }
}

/// Relies on `<cidr::Ipv4Cidr as FromStr>::from_str`: a prefix length of at most 32.
#[verifier::external_body]
pub(crate) fn parse_ipv4_cidr(s: &str) -> (r: Option<(u32, u8)>)
    ensures
        r == ipv4_cidr_of(s@),
        r matches Some((_, len)) ==> len <= 32,
{
    match s.parse::<cidr::Ipv4Cidr>() {
        Ok(c) => Some((u32::from(c.first_address()), c.network_length())),
        Err(_) => None,
    }
}

/// Relies on `regex::Regex::new` and `regex::Regex::is_match`; a pattern that
/// does not compile matches nothing.
#[verifier::external_body]
pub(crate) fn regex_matches(pattern: &str, text: &str) -> (r: bool)
    ensures
        r == regex_finds(pattern@, text@),
{
    match regex::Regex::new(pattern) {
        Ok(re) => re.is_match(text),
        Err(_) => false,
    }
}

/// `ip` shares its first `len` bits with `net`, in a 32-bit address.
pub open spec fn v4_prefix_match(net: u32, len: u8, ip: u32) -> bool {
    len == 0 || (len <= 32 && (net >> ((32 - len) as u32)) == (ip >> ((32 - len) as u32)))
}

/// `ip` shares its first `len` bits with `net`, in a 128-bit address.
pub open spec fn v6_prefix_match(net: u128, len: u8, ip: u128) -> bool {
    len == 0 || (len <= 128 && (net >> ((128 - len) as u128)) == (ip >> ((128 - len) as u128)))
}

/// `ip` lies in a block of the same family.
pub open spec fn block_contains(b: CidrBlock, ip: IpAddress) -> bool {
    match ip {
        IpAddress::V4(a) => !b.0 && v4_prefix_match(b.1 as u32, b.2, a),
        IpAddress::V6(a) => b.0 && v6_prefix_match(b.1, b.2, a),
    }
}

/// `ip` lies in the block that text `s` denotes; texts that do not parse hold nothing.
pub open spec fn text_block_contains(s: Seq<char>, ip: IpAddress) -> bool {
    match ip_cidr_of(s) {
        Some(b) => block_contains(b, ip),
        None => false,
    }
}

/// `ip` lies in the IPv4 block that text `s` denotes.
pub open spec fn text_v4_block_contains(s: Seq<char>, ip: u32) -> bool {
    match ipv4_cidr_of(s) {
        Some((net, len)) => v4_prefix_match(net, len, ip),
        None => false,
    }
}

/// Whether `ip` lies in `block`.
pub fn in_block(block: CidrBlock, ip: IpAddress) -> (r: bool)
    ensures
        r == block_contains(block, ip),
{
    let (v6, net, len) = block;
    match ip {
        IpAddress::V4(a) => {
            if v6 || len > 32 {
                false
            } else if len == 0 {
                true
            } else {
                let shift: u32 = (32 - len) as u32;
                ((net as u32) >> shift) == (a >> shift)
            }
        },
        IpAddress::V6(a) => {
            if !v6 || len > 128 {
                false
            } else if len == 0 {
                true
            } else {
                let shift: u128 = (128 - len) as u128;
                (net >> shift) == (a >> shift)
            }
        },
    }
}

/// Whether `ip` lies in any block of `blocks` (texts that do not parse are skipped).
pub fn in_any_block(blocks: &Vec<String>, ip: IpAddress) -> (r: bool)
    ensures
        r == exists|i: int| 0 <= i < blocks@.len() && text_block_contains(#[trigger] blocks@[i]@, ip),
{
    let mut i: usize = 0;
    while i < blocks.len()
        invariant
            i <= blocks@.len(),
            forall|k: int| 0 <= k < i ==> !text_block_contains(#[trigger] blocks@[k]@, ip),
        decreases blocks@.len() - i,
    {
        match parse_ip_cidr(blocks[i].as_str()) {
            Some(b) => {
                if in_block(b, ip) {
                    return true;
                }
            },
            None => {},
        }
        i += 1;
    }
    false
}

/// Whether the IPv4 address `ip` lies in any IPv4 block of `blocks`.
pub fn in_any_v4_block(blocks: &Vec<String>, ip: u32) -> (r: bool)
    ensures
        r == exists|i: int| 0 <= i < blocks@.len() && text_v4_block_contains(#[trigger] blocks@[i]@, ip),
{
    let mut i: usize = 0;
    while i < blocks.len()
        invariant
            i <= blocks@.len(),
            forall|k: int| 0 <= k < i ==> !text_v4_block_contains(#[trigger] blocks@[k]@, ip),
        decreases blocks@.len() - i,
    {
        match parse_ipv4_cidr(blocks[i].as_str()) {
            Some((net, len)) => {
                if len == 0 {
                    return true;
                }
                let shift: u32 = (32 - len) as u32;
                if (net >> shift) == (ip >> shift) {
                    return true;
                }
            },
            None => {},
        }
        i += 1;
    }
    false
}

} // verus!
