//! The raw-socket transport: connection state, the dial plan derived from a
//! parsed endpoint, and the termination rule a socket read is framed by.

use vstd::prelude::*;

use crate::address::InstAddr;
use crate::communication::InstConnection;
use crate::err::{Error, ErrorSpec};
use crate::socket::{host_canon, Ipv4Address, Ipv6Address, Socket};
use crate::text::ascii_chars;
use crate::termination_bytes::TerminationBytes;

verus! {

/// Dial timeout for TCP connects, in milliseconds.
pub const CONNECT_TIMEOUT_MS: u64 = 2000;

/// Default receive buffer size, in bytes.
pub const DEFAULT_BUFFER_SIZE: usize = 4096;

/// The state of a raw-socket connection. The stream itself lives with the
/// caller, which dials per [`dial_target`] and mirrors this state onto it.
pub struct TcpConn {
    pub address: Socket,
    pub buffer_size: usize,
    pub term_string: Option<TerminationBytes>,
    pub frame_size: Option<usize>,
    pub timeout_ms: u64,
}

/// Where a dial must go: a numeric endpoint as it stands, or a hostname to
/// resolve first, IPv4 preferred.
pub enum DialTarget {
    V4 { ip: Ipv4Address, port: u16 },
    V6 { ip: Ipv6Address, port: u16 },
    Resolve { host: String, port: u16 },
}

/// The endpoint a socket address dials: numeric addresses as they stand;
/// raw hosts resolve immediately before dialing.
pub fn dial_target(s: &Socket) -> (r: DialTarget)
    requires
        s.wf(),
    ensures
        match s {
            Socket::V4 { ip, port } => r matches DialTarget::V4 { ip: i, port: p } && i == ip && p
                == port,
            Socket::V6 { ip, port } => r matches DialTarget::V6 { ip: i, port: p } && i == ip && p
                == port,
            Socket::Raw(rs) => r matches DialTarget::Resolve { host, port } && host@
                == ascii_chars(host_canon(rs@.host)) && port == rs@.port,
        },
{
    match s {
        Socket::V4 { ip, port } => DialTarget::V4 { ip: *ip, port: *port },
        Socket::V6 { ip, port } => DialTarget::V6 { ip: *ip, port: *port },
        Socket::Raw(rs) => DialTarget::Resolve { host: rs.host_name(), port: rs.port() },
    }
}

/// Among resolved records, the index to dial: the first IPv4 record where
/// one exists, otherwise the first record at all.
pub fn ipv4_first_index(is_v4: &Vec<bool>) -> (r: Option<usize>)
    ensures
        match r {
            Some(i) => i < is_v4@.len() && ((is_v4@[i as int] && forall|k: int|
                0 <= k < i ==> !is_v4@[k]) || (i == 0 && forall|k: int|
                0 <= k < is_v4@.len() ==> !is_v4@[k])),
            None => is_v4@.len() == 0,
        },
{
    let mut i: usize = 0;
    while i < is_v4.len()
        invariant
            i <= is_v4@.len(),
            forall|k: int| 0 <= k < i ==> !is_v4@[k],
        decreases is_v4.len() - i,
    {
        if is_v4[i] {
            return Some(i);
        }
        i = i + 1;
    }
    if is_v4.len() > 0 {
        Some(0)
    } else {
        None
    }
}

impl TcpConn {
    /// Connection state as a fresh dial leaves it: default buffer, line-feed
    /// termination, no fixed frame, and the dial timeout.
    pub fn connect(addr: Socket) -> (r: TcpConn)
        ensures
            r.address == addr,
            r.buffer_size == DEFAULT_BUFFER_SIZE,
            r.term_string == Some(TerminationBytes::LF),
            r.frame_size.is_none(),
            r.timeout_ms == CONNECT_TIMEOUT_MS,
    {
        TcpConn {
            address: addr,
            buffer_size: DEFAULT_BUFFER_SIZE,
            term_string: Some(TerminationBytes::LF),
            frame_size: None,
            timeout_ms: CONNECT_TIMEOUT_MS,
        }
    }

    /// The owning address.
    pub fn address(&self) -> (r: InstAddr)
        ensures
            r matches InstAddr::Socket(s) && s@ == self.address@ && (self.address.wf()
                ==> s.wf()),
    {
        InstAddr::Socket(self.address.duplicate())
    }

    /// The timeout applies to reads and writes alike; the caller mirrors it
    /// onto both directions of the stream.
    pub fn set_timeout(&mut self, timeout_ms: u64) -> (r: Result<(), Error>)
        ensures
            r matches Ok(()),
            final(self).timeout_ms == timeout_ms,
            final(self).address == old(self).address,
            final(self).buffer_size == old(self).buffer_size,
            final(self).term_string == old(self).term_string,
            final(self).frame_size == old(self).frame_size,
    {
        self.timeout_ms = timeout_ms;
        Ok(())
    }

    /// Selecting no termination while no fixed frame size is configured is
    /// rejected: the transport would never know when a read completes. Any
    /// other policy is accepted as it stands.
    pub fn set_termination(&mut self, term_bytes: TerminationBytes) -> (r: Result<(), Error>)
        ensures
            match r {
                Ok(()) => {
                    &&& !(term_bytes matches TerminationBytes::Unterminated
                        && old(self).frame_size is None)
                    &&& final(self).term_string == Some(term_bytes)
                    &&& final(self).address == old(self).address
                    &&& final(self).buffer_size == old(self).buffer_size
                    &&& final(self).frame_size == old(self).frame_size
                    &&& final(self).timeout_ms == old(self).timeout_ms
                },
                Err(e) => {
                    &&& term_bytes matches TerminationBytes::Unterminated
                    &&& old(self).frame_size is None
                    &&& e@ matches ErrorSpec::ConflictingSettings { .. }
                    &&& *final(self) == *old(self)
                },
            },
    {
        match &term_bytes {
            TerminationBytes::Unterminated => {
                match self.frame_size {
                    None => {
                        return Err(
                            Error::ConflictingSettings(
                                String::from_str(
                                    "Cannot set no termination when frame size is not fixed. We will not know when to return. Typically this is not a problem but some instruments might send data in bursts and an early return will cause a problem.",
                                ),
                            ),
                        );
                    },
                    Some(_) => {},
                }
            },
            _ => {},
        }
        self.term_string = Some(term_bytes);
        Ok(())
    }

    /// Reconnection preserves the whole configuration; the caller re-dials
    /// the stream from the retained address.
    pub fn reconnect(&mut self) -> (r: Result<(), Error>)
        ensures
            r matches Ok(()),
            *final(self) == *old(self),
    {
        Ok(())
    }
}

impl InstConnection for TcpConn {
    fn address(&self) -> InstAddr {
        TcpConn::address(self)
    }

    fn set_timeout(&mut self, timeout_ms: u64) -> Result<(), Error> {
        TcpConn::set_timeout(self, timeout_ms)
    }

    fn reconnect(&mut self) -> Result<(), Error> {
        TcpConn::reconnect(self)
    }

    fn set_termination(&mut self, term_bytes: TerminationBytes) -> Result<(), Error> {
        TcpConn::set_termination(self, term_bytes)
    }
}

} // verus!
