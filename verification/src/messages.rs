//! Configuration of the message server: the part of it that is plain data.
//! Running the server itself is I/O and lives outside this library.
use vstd::prelude::*;

verus! {

/// A message server bound to one TCP port.
pub struct MessageApp {
    port: u16,
}

impl View for MessageApp {
    type V = u16;

    closed spec fn view(&self) -> u16 {
        self.port
    }
}

impl MessageApp {
    /// A server configured for the given port.
    pub fn new(port: u16) -> (r: Self)
        ensures
            r@ == port,
    {
        MessageApp { port }
    }

    /// The port the server was configured with.
    pub fn port(&self) -> (p: u16)
        ensures
            p == self@,
    {
        self.port
    }
}

} // verus!
