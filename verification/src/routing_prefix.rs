//! The key under which paths are collected: an address and a mask length.

use vstd::prelude::*;

use crate::error::{Error, ErrorSpec};
use crate::ip_address::{address_of_octets, IpAddress};
use crate::ip_text::{ip_of_text, text_of_ip};
use crate::text::{
    chars_of, decimal_text, parse_unsigned, piece_views, push_decimal, split, split_chars,
    string_of, unsigned_of_text,
};

verus! {

/// A network in CIDR form.
#[derive(Debug, PartialEq, Eq, Hash, Clone, Copy, Structural)]
pub struct RoutingPrefix {
    pub ip: IpAddress,
    pub mask: u8,
}

/// What a text of the form `ip/mask` reads as. Only the first two pieces
/// between slashes count.
pub open spec fn prefix_of_text(s: Seq<char>) -> Result<RoutingPrefix, ErrorSpec> {
    let parts = split(s, '/');
    if parts.len() < 2 {
        Err(ErrorSpec::NoSlash { bad_prefix: s })
    } else {
        match ip_of_text(parts[0]) {
            None => Err(ErrorSpec::AddrParse { bad_addr: parts[0] }),
            Some(ip) => match unsigned_of_text(parts[1], 255) {
                None => Err(ErrorSpec::ParseInt { bad_num: parts[1] }),
                Some(mask) => Ok(RoutingPrefix { ip, mask: mask as u8 }),
            },
        }
    }
}

/// A prefix as text: the address, a slash, the mask length.
pub open spec fn text_of_prefix(prefix: RoutingPrefix) -> Seq<char> {
    text_of_ip(prefix.ip) + seq!['/'] + decimal_text(prefix.mask as nat)
}

/// A parsed prefix, or the error, as contracts see it.
pub open spec fn prefix_result(r: Result<RoutingPrefix, Error>) -> Result<
    RoutingPrefix,
    ErrorSpec,
> {
    match r {
        Ok(prefix) => Ok(prefix),
        Err(e) => Err(e@),
    }
}

impl RoutingPrefix {
    /// Reads a prefix from its characters.
    pub fn from_chars(chars: &[char]) -> (r: Result<RoutingPrefix, Error>)
        ensures
            prefix_result(r) == prefix_of_text(chars@),
    {
        let parts = split_chars(chars, '/');
        if parts.len() < 2 {
            return Err(Error::NoSlash { bad_prefix: string_of(chars) });
        }
        proof {
            let views = piece_views(parts@);
            assert(views[0] == parts@[0]@);
            assert(views[1] == parts@[1]@);
        }
        let ip = match IpAddress::parse(parts[0].as_slice()) {
            Some(ip) => ip,
            None => {
                return Err(Error::AddrParse { bad_addr: string_of(parts[0].as_slice()) });
            },
        };
        match parse_unsigned(parts[1].as_slice(), 255) {
            Some(mask) => Ok(RoutingPrefix { ip, mask: mask as u8 }),
            None => Err(Error::ParseInt { bad_num: string_of(parts[1].as_slice()) }),
        }
    }

    /// Reads a prefix from text of the form `ip/mask`.
    pub fn from_str(text: &str) -> (r: Result<RoutingPrefix, Error>)
        ensures
            prefix_result(r) == prefix_of_text(text@),
    {
        let chars = chars_of(text);
        Self::from_chars(chars.as_slice())
    }

    /// The prefix as characters.
    pub fn to_chars(&self) -> (chars: Vec<char>)
        ensures
            chars@ == text_of_prefix(*self),
    {
        let mut chars = self.ip.to_chars();
        chars.push('/');
        push_decimal(&mut chars, self.mask as u32);
        chars
    }

    /// The prefix as text of the form `ip/mask`.
    pub fn to_text(&self) -> (text: String)
        ensures
            text@ == text_of_prefix(*self),
    {
        let chars = self.to_chars();
        string_of(chars.as_slice())
    }

    /// The prefix whose address starts with `octets` and is zero after
    /// them, with the given mask length.
    pub fn from_binary(octets: &[u8], mask: u8, is_v6: bool) -> (prefix: RoutingPrefix)
        ensures
            prefix == (RoutingPrefix { ip: address_of_octets(octets@, !is_v6), mask }),
    {
        RoutingPrefix { ip: IpAddress::from_octets(octets, !is_v6), mask }
    }
}

} // verus!
