//! Peer network metadata resolved during the handshake, before a session
//! exists.

use vstd::prelude::*;

verus! {

/// Why a handshake was rejected before a session was created.
#[derive(Clone, Copy, PartialEq, Eq, Structural, Debug)]
pub enum WsError {
    IpRequired,
}

/// The peer addresses a session keeps: the apparent address, and the real
/// one when a reverse proxy reported it.
pub struct NetworkInfo {
    pub ip: String,
    pub real_ip: Option<String>,
}

/// Picks the client's apparent address: a reverse proxy's forwarded address
/// wins over the socket peer address; with neither, the handshake fails.
pub fn resolve_client_ip(x_real_ip: Option<String>, peer_ip: Option<String>) -> (r: Result<
    String,
    WsError,
>)
    ensures
        x_real_ip is Some ==> r == Ok::<String, WsError>(x_real_ip.unwrap()),
        x_real_ip is None && peer_ip is Some ==> r == Ok::<String, WsError>(peer_ip.unwrap()),
        x_real_ip is None && peer_ip is None ==> r == Err::<String, WsError>(WsError::IpRequired),
{
    match x_real_ip {
        Some(ip) => Ok(ip),
        None => match peer_ip {
            Some(ip) => Ok(ip),
            None => Err(WsError::IpRequired),
        },
    }
}

} // verus!
