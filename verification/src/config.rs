//! Startup configuration values handed to the server shell.

use vstd::prelude::*;

verus! {

/// The set of ports the server binds; today only the web page port.
pub struct Ports {
    port: u32,
}

impl Ports {
    /// The port this configuration carries.
    pub closed spec fn spec_port(&self) -> u32 {
        self.port
    }

    pub fn new(port: u32) -> (r: Ports)
        ensures
            r.spec_port() == port,
    {
        Ports { port }
    }

    pub fn get_port(&self) -> (r: u32)
        ensures
            r == self.spec_port(),
    {
        self.port
    }
}

} // verus!
