//! A connection to a server as the client plans it: where to connect, through
//! which proxy, how long to wait, and what to send once the stream is there.
//!
//! Opening the stream and moving bytes over it is the caller's part.  This
//! file holds what is decided before and between those steps.

use crate::frame::envelope_bytes;
use crate::packets::{
    address_fits, handshake_payload, status_query_bytes, ClientHandshake, StatusQuery,
    NEXT_STATE_STATUS, PACKET_ID, PROTOCOL_VERSION,
};
use vstd::prelude::*;

verus! {

/// How long to wait for the stream to open, in milliseconds, where the
/// connection names no time.
pub const CONNECT_TIMEOUT_MS: u64 = 8000;

/// How long to wait for the handshake to be written, in milliseconds, where
/// the connection names no time.
pub const WRITE_TIMEOUT_MS: u64 = 9000;

/// Why a connection cannot do what was asked of it.
#[derive(Debug, Clone, Copy, PartialEq, Eq, Structural)]
pub enum ConnectionError {
    /// The connection was not made by `Connection::new`.
    NotInitialized,
    /// The stream is not open yet.
    NotConnected,
    /// The address of the server is too long for a handshake.
    AddressTooLong,
}

/// How to open the stream.
#[derive(Debug, Clone, Copy, PartialEq, Eq, Structural)]
pub enum ConnectPlan {
    /// Do not connect: the server is given by name, and names are not
    /// resolved.
    Refuse,
    /// Connect to the address of the server as it stands.
    Direct { timeout_ms: u64 },
    /// Look the name of the server up and connect to the first address found.
    Resolve { timeout_ms: u64 },
    /// Connect through the SOCKS5 proxy of the connection, and hand the
    /// proxy the address of the server as it stands.
    Proxy { timeout_ms: u64 },
}

/// A connection to a server, open or not yet.  `T` is the stream.
pub struct Connection<T> {
    /// Whether the connection was made by `new`.
    pub is_initialized: bool,
    /// The stream, once it is open.
    pub stream: Option<T>,
    /// How long to wait for the stream to open and for a write, in
    /// milliseconds.
    pub timeout: Option<u64>,
    /// Host and port of a SOCKS5 proxy to connect through.
    pub proxy_addr: Option<(String, u16)>,
    /// Host and port of the server.
    pub addr: (String, u16),
}

/// How to open the stream of a connection with the time `timeout` and with
/// or without a proxy, to a server that is or is not given by name, where
/// names are or are not resolved.
pub open spec fn plan(timeout: Option<u64>, has_proxy: bool, is_domain: bool, resolve: bool)
    -> ConnectPlan {
    let timeout_ms = match timeout {
        Some(ms) => ms,
        None => CONNECT_TIMEOUT_MS,
    };
    if !resolve && is_domain {
        ConnectPlan::Refuse
    } else if has_proxy {
        ConnectPlan::Proxy { timeout_ms }
    } else if resolve {
        ConnectPlan::Resolve { timeout_ms }
    } else {
        ConnectPlan::Direct { timeout_ms }
    }
}

impl<T> Connection<T> {
    /// A connection to the server at `addr`, not open yet, with no proxy and
    /// no time named.
    pub fn new(addr: (String, u16)) -> (c: Connection<T>)
        ensures
            c.is_initialized,
            c.stream is None,
            c.timeout is None,
            c.proxy_addr is None,
            c.addr == addr,
    {
        Connection { stream: None, timeout: None, is_initialized: true, proxy_addr: None, addr }
    }

    /// Names the time to wait, in milliseconds.  Fails with `NotInitialized`
    /// on a connection that `new` did not make.
    pub fn timeout(self, timeout: u64) -> (r: Result<Connection<T>, ConnectionError>)
        ensures
            match r {
                Ok(c) => self.is_initialized && c.timeout == Some(timeout) && c.is_initialized
                    && c.stream == self.stream && c.proxy_addr == self.proxy_addr && c.addr
                    == self.addr,
                Err(e) => !self.is_initialized && e == ConnectionError::NotInitialized,
            },
    {
        if !self.is_initialized {
            return Err(ConnectionError::NotInitialized);
        }
        let mut c = self;
        c.timeout = Some(timeout);
        Ok(c)
    }

    /// Names the SOCKS5 proxy to connect through.  Fails with
    /// `NotInitialized` on a connection that `new` did not make.
    pub fn proxy_socks5(self, proxy_addr: (String, u16)) -> (r: Result<
        Connection<T>,
        ConnectionError,
    >)
        ensures
            match r {
                Ok(c) => self.is_initialized && c.proxy_addr == Some(proxy_addr)
                    && c.is_initialized && c.stream == self.stream && c.timeout == self.timeout
                    && c.addr == self.addr,
                Err(e) => !self.is_initialized && e == ConnectionError::NotInitialized,
            },
    {
        if !self.is_initialized {
            return Err(ConnectionError::NotInitialized);
        }
        let mut c = self;
        c.proxy_addr = Some(proxy_addr);
        Ok(c)
    }

    /// How to open the stream.  `is_domain` says whether the server is given
    /// by name and not by an IP address, `resolve` whether names are
    /// resolved.  Without resolving, a name is refused, proxy or not; else a
    /// proxy is used where there is one.  The time to wait is the one the
    /// connection names, or eight seconds.
    pub fn connect_plan(&self, is_domain: bool, resolve: bool) -> (p: ConnectPlan)
        ensures
            p == plan(self.timeout, self.proxy_addr is Some, is_domain, resolve),
    {
        let timeout_ms: u64 = match self.timeout {
            Some(ms) => ms,
            None => CONNECT_TIMEOUT_MS,
        };
        if !resolve && is_domain {
            ConnectPlan::Refuse
        } else if self.proxy_addr.is_some() {
            ConnectPlan::Proxy { timeout_ms }
        } else if resolve {
            ConnectPlan::Resolve { timeout_ms }
        } else {
            ConnectPlan::Direct { timeout_ms }
        }
    }

    /// How long to wait for the handshake to be written, in milliseconds:
    /// the time the connection names, or nine seconds.
    pub fn write_timeout_ms(&self) -> (ms: u64)
        ensures
            ms == match self.timeout {
                Some(t) => t,
                None => WRITE_TIMEOUT_MS,
            },
    {
        match self.timeout {
            Some(t) => t,
            None => WRITE_TIMEOUT_MS,
        }
    }

    /// The bytes of the handshake to send to the server of this connection.
    /// Fails with `NotConnected` while the stream is not open, and else with
    /// `AddressTooLong` where no handshake can hold the address.
    pub fn handshake_bytes(&self) -> (r: Result<Vec<u8>, ConnectionError>)
        ensures
            match r {
                Ok(bytes) => self.stream is Some && address_fits(self.addr.0@) && bytes@
                    == envelope_bytes(
                    PACKET_ID,
                    handshake_payload(
                        PROTOCOL_VERSION,
                        self.addr.0@,
                        self.addr.1,
                        NEXT_STATE_STATUS,
                    ),
                ),
                Err(e) => if self.stream is None {
                    e == ConnectionError::NotConnected
                } else {
                    e == ConnectionError::AddressTooLong && !address_fits(self.addr.0@)
                },
            },
    {
        if self.stream.is_none() {
            return Err(ConnectionError::NotConnected);
        }
        if !ClientHandshake::accepts(self.addr.0.as_str()) {
            return Err(ConnectionError::AddressTooLong);
        }
        let handshake = ClientHandshake::new(self.addr.0.clone(), self.addr.1);
        Ok(handshake.to_bytes())
    }

    /// The bytes of the status request to send.  Fails with `NotConnected`
    /// while the stream is not open.
    pub fn query_bytes(&self) -> (r: Result<Vec<u8>, ConnectionError>)
        ensures
            match r {
                Ok(bytes) => self.stream is Some && bytes@ == status_query_bytes(),
                Err(e) => self.stream is None && e == ConnectionError::NotConnected,
            },
    {
        let query = StatusQuery::new();
        let bytes = query.to_bytes();
        if self.stream.is_none() {
            return Err(ConnectionError::NotConnected);
        }
        Ok(bytes)
    }
}

} // verus!
