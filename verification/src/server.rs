use vstd::prelude::*;

verus! {

broadcast use vstd::string::to_string_from_display_ensures_for_str;

/// A receiver that listens on `addr` and reads buffers of `size` bytes from
/// each connection.
pub struct Server {
    pub addr: String,
    pub size: usize,
}

/// A receiver for the given bind address and buffer size.
pub fn build_server(addr: &str, size: usize) -> (s: Server)
    ensures
        s.addr@ == addr@,
        s.size == size,
{
    Server { addr: addr.to_string(), size: size }
}

} // verus!
