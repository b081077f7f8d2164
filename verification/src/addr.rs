//! IP addresses as plain values.
use crate::text;
use vstd::prelude::*;

verus! {

/// An IPv4 address, octet by octet.
#[derive(Clone, Copy, PartialEq, Eq, Structural, Hash, Debug)]
pub struct Ipv4Addr {
    pub a: u8,
    pub b: u8,
    pub c: u8,
    pub d: u8,
}

/// The address of a host: IPv4, or the 128 bits of an IPv6 address.
#[derive(Clone, Copy, PartialEq, Eq, Structural, Hash, Debug)]
pub enum IpAddr {
    V4(Ipv4Addr),
    V6(u128),
}

impl View for Ipv4Addr {
    type V = Ipv4Addr;

    open spec fn view(&self) -> Ipv4Addr {
        *self
    }
}

impl DeepView for Ipv4Addr {
    type V = Ipv4Addr;

    open spec fn deep_view(&self) -> Ipv4Addr {
        *self
    }
}

impl View for IpAddr {
    type V = IpAddr;

    open spec fn view(&self) -> IpAddr {
        *self
    }
}

impl DeepView for IpAddr {
    type V = IpAddr;

    open spec fn deep_view(&self) -> IpAddr {
        *self
    }
}

impl Ipv4Addr {
    /// The dotted form of the address: four decimal octets joined by dots.
    pub open spec fn dotted(self) -> Seq<char> {
        text::decimal_text(self.a as nat) + "."@ + text::decimal_text(self.b as nat) + "."@
            + text::decimal_text(self.c as nat) + "."@ + text::decimal_text(self.d as nat)
    }

    pub fn new(a: u8, b: u8, c: u8, d: u8) -> (r: Self)
        ensures
            r == (Ipv4Addr { a, b, c, d }),
    {
        Ipv4Addr { a, b, c, d }
    }

    /// The address `0.0.0.0`.
    pub fn unspecified() -> (r: Self)
        ensures
            r == (Ipv4Addr { a: 0, b: 0, c: 0, d: 0 }),
    {
        Ipv4Addr { a: 0, b: 0, c: 0, d: 0 }
    }

    /// The address in dotted decimal notation.
    pub fn to_text(&self) -> (r: String)
        ensures
            r@ == self.dotted(),
    {
        let mut r = text::decimal(self.a as u128);
        r.append(".");
        r.append(text::decimal(self.b as u128).as_str());
        r.append(".");
        r.append(text::decimal(self.c as u128).as_str());
        r.append(".");
        r.append(text::decimal(self.d as u128).as_str());
        r
    }
}

} // verus!
