use vstd::prelude::*;

use crate::elapsed::{Elapsed, NANOS_PER_SEC};

verus! {

broadcast use vstd::string::to_string_from_display_ensures_for_str;

/// A sender that opens `streams` connections to each address, sends buffers
/// of `size` bytes on each, and stops a stream once it has spent more than
/// `duration` sending.
pub struct Client {
    pub addrs: Vec<String>,
    pub streams: usize,
    pub duration: Elapsed,
    pub size: usize,
}

/// A sender for the given addresses, streams per address, duration in
/// seconds and buffer size.
pub fn build_client(addrs: Vec<&str>, streams: usize, duration: u64, size: usize) -> (c: Client)
    ensures
        c.addrs@.len() == addrs@.len(),
        forall|i: int| 0 <= i < addrs@.len() ==> (#[trigger] c.addrs@[i])@ == addrs@[i]@,
        c.streams == streams,
        c.duration@ == duration * NANOS_PER_SEC,
        c.size == size,
{
    let mut a: Vec<String> = Vec::new();
    let n = addrs.len();
    let mut i: usize = 0;
    while i < n
        invariant
            n == addrs@.len(),
            i <= n,
            a@.len() == i,
            forall|j: int| 0 <= j < i ==> (#[trigger] a@[j])@ == addrs@[j]@,
        decreases n - i,
    {
        a.push(addrs[i].to_string());
        i = i + 1;
    }
    Client { streams, addrs: a, duration: Elapsed::from_secs(duration), size: size }
}

impl Client {
    /// The number of connections a run opens: `streams` for each address.
    pub fn thread_count(&self) -> (n: usize)
        requires
            self.addrs@.len() * self.streams <= usize::MAX,
        ensures
            n == self.addrs@.len() * self.streams,
    {
        self.addrs.len() * self.streams
    }
}

} // verus!
