//! The one-shot client: front-ends encode a message and send a single
//! datagram to the daemon's socket. The datagram's bytes are computed
//! here; the socket itself belongs to the binary around the library.

use vstd::prelude::*;

verus! {

/// A handle on the daemon's socket path.
#[derive(Debug)]
pub struct Client {
    socket_path: String,
}

impl View for Client {
    type V = Seq<char>;

    closed spec fn view(&self) -> Seq<char> {
        self.socket_path@
    }
}

/// A client for the daemon listening at the given socket path.
pub fn new(socket_path: String) -> (r: Client)
    ensures
        r@ == socket_path@,
{
    Client { socket_path }
}

impl Client {
    /// Where the datagram goes.
    pub fn socket_path(&self) -> (r: &String)
        ensures
            r@ == self@,
    {
        &self.socket_path
    }
}

} // verus!
