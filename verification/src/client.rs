use rand::RngExt;
use vstd::prelude::*;

verus! {

/// This client: its peer id and the port it announces.
#[derive(Debug, Clone)]
pub struct Client {
    pub peer_id: [u8; 20],
    pub port: u16,
}

impl Client {
    /// A client with a random peer id, announcing port 12345.
    pub fn new() -> (res: Self)
        ensures
            res.port == 12345,
    {
        Self { peer_id: generate_client_id(), port: 12345 }
    }
}

/// Twenty random bytes from `rand::rng().fill` of the rand crate. Nothing is
/// stated of them: they are random.
#[verifier::external_body]
fn generate_client_id() -> [u8; 20] {
    let mut id = [0u8; 20];
    rand::rng().fill(&mut id);
    id
}

} // verus!
