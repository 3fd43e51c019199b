use vstd::prelude::*;

verus! {

/// Where the HTTP endpoint listens.
#[derive(Debug, Clone)]
pub struct EndpointConfig {
    pub port: u16,
}

impl Default for EndpointConfig {
    /// Port 3000.
    fn default() -> (c: Self)
        ensures
            c.port == 3000,
    {
        EndpointConfig { port: 3000 }
    }
}

} // verus!
