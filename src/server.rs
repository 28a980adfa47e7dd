//! Server configuration: the address to bind and an optional encryption
//! context factory, set before the accept loop starts.

use vstd::prelude::*;
use crate::request::Limits;

verus! {

/// An IPv4 socket address.
#[derive(Clone, Copy, Debug, PartialEq, Eq, Structural)]
pub struct SocketAddress {
    /// The four octets of the address, most significant first.
    pub ip: u32,
    pub port: u16,
}

/// The address a server binds when none is given: `0.0.0.0:3000`.
pub open spec fn default_address() -> SocketAddress {
    SocketAddress { ip: 0, port: 3000 }
}

/// The head bounds each connection's parser uses.
pub open spec fn default_limits() -> Limits {
    Limits { max_head_bytes: 8192, max_headers: 100 }
}

/// Head bounds of 8 KiB and 100 header lines.
pub fn server_limits() -> (r: Limits)
    ensures
        r == default_limits(),
{
    Limits { max_head_bytes: 8192, max_headers: 100 }
}

/// Configuration of a server; `C` is the encryption context factory.
pub struct Server<C> {
    addr: SocketAddress,
    ssl: Option<C>,
}

impl<C> Server<C> {
    pub closed spec fn address(&self) -> SocketAddress {
        self.addr
    }

    pub closed spec fn encryption(&self) -> Option<C> {
        self.ssl
    }

    /// A server for `addr`, without encryption.
    pub fn new(addr: SocketAddress) -> (r: Self)
        ensures
            r.address() == addr,
            r.encryption() is None,
    {
        Server { addr, ssl: None }
    }

    /// The same configuration, bound to `addr`.
    pub fn addr(self, addr: SocketAddress) -> (r: Self)
        ensures
            r.address() == addr,
            r.encryption() == self.encryption(),
    {
        Server { addr, ssl: self.ssl }
    }

    /// The same configuration, upgrading every connection with `ssl`.
    pub fn ssl(self, ssl: C) -> (r: Self)
        ensures
            r.address() == self.address(),
            r.encryption() == Some(ssl),
    {
        Server { addr: self.addr, ssl: Some(ssl) }
    }

    /// The address to bind.
    pub fn bind_address(&self) -> (r: SocketAddress)
        ensures
            r == self.address(),
    {
        self.addr
    }

    /// The encryption context factory, if one is set.
    pub fn encryption_context(&self) -> (r: Option<&C>)
        ensures
            r == match self.encryption() {
                Some(c) => Some(&c),
                None => None::<&C>,
            },
    {
        match &self.ssl {
            Some(c) => Some(c),
            None => None,
        }
    }

    /// Takes the configuration apart: address and encryption factory.
    pub fn into_parts(self) -> (r: (SocketAddress, Option<C>))
        ensures
            r == (self.address(), self.encryption()),
    {
        (self.addr, self.ssl)
    }
}

impl<C> Default for Server<C> {
    /// A server on `0.0.0.0:3000`, without encryption.
    fn default() -> (r: Self)
        ensures
            r.address() == default_address(),
            r.encryption() is None,
    {
        Server { addr: SocketAddress { ip: 0, port: 3000 }, ssl: None }
    }
}

} // verus!
