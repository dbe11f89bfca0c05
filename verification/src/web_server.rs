//! The web interface's settings.

use vstd::prelude::*;

verus! {

/// The web interface, served on a local port.
pub struct WebServer {
    port: u16,
}

impl WebServer {
    /// The port the interface is served on.
    pub closed spec fn spec_port(&self) -> u16 {
        self.port
    }

    /// A web interface on port 3030.
    pub fn new() -> (r: Self)
        ensures
            r.spec_port() == 3030,
    {
        Self { port: 3030 }
    }

    /// The port the interface is served on.
    pub fn port(&self) -> (r: u16)
        ensures
            r == self.spec_port(),
    {
        self.port
    }
}

} // verus!
