use vstd::prelude::*;

use crate::elapsed::{Elapsed, NANOS_PER_SEC};

verus! {

/// The sum of the stream counts of a list of addresses.
pub open spec fn stream_sum(addrs: Seq<(String, usize)>) -> int
    decreases addrs.len(),
{
    if addrs.len() == 0 {
        0
    } else {
        stream_sum(addrs.drop_last()) + addrs.last().1
    }
}

/// No address occurs twice.
pub open spec fn distinct_addrs(addrs: Seq<(String, usize)>) -> bool {
    forall|i: int, j: int|
        0 <= i < j < addrs.len() ==> (#[trigger] addrs[i]).0@ != (#[trigger] addrs[j]).0@
}

/// A sender that opens, for each address, its own number of connections,
/// sends buffers of `size` bytes on each, reports each stream's rate once
/// per `interval`, and stops a stream once it has spent more than
/// `duration` sending. No address occurs twice.
pub struct Clients {
    addrs: Vec<(String, usize)>,
    interval: Elapsed,
    duration: Elapsed,
    size: usize,
}

/// A sender for the given addresses with their stream counts, the report
/// interval and the duration in seconds, and the buffer size.
pub fn build_clients(addrs: Vec<(String, usize)>, interval: u64, duration: u64, size: usize) -> (c: Clients)
    requires
        distinct_addrs(addrs@),
    ensures
        c.addr_list() == addrs@,
        c.interval_nanos() == interval * NANOS_PER_SEC,
        c.duration_nanos() == duration * NANOS_PER_SEC,
        c.buffer_size() == size,
{
    Clients {
        addrs,
        interval: Elapsed::from_secs(interval),
        duration: Elapsed::from_secs(duration),
        size: size,
    }
}

impl Clients {
    #[verifier::type_invariant]
    spec fn addresses_distinct(self) -> bool {
        distinct_addrs(self.addrs@)
    }

    /// The addresses with their stream counts.
    pub closed spec fn addr_list(&self) -> Seq<(String, usize)> {
        self.addrs@
    }

    /// The report interval in nanoseconds.
    pub closed spec fn interval_nanos(&self) -> nat {
        self.interval@
    }

    /// The duration of a stream in nanoseconds.
    pub closed spec fn duration_nanos(&self) -> nat {
        self.duration@
    }

    /// The buffer size.
    pub closed spec fn buffer_size(&self) -> usize {
        self.size
    }

    /// The addresses with their stream counts; no address occurs twice.
    pub fn addrs(&self) -> (r: &Vec<(String, usize)>)
        ensures
            r@ == self.addr_list(),
            distinct_addrs(r@),
    {
        proof {
            use_type_invariant(self);
        }
        &self.addrs
    }

    /// The report interval.
    pub fn interval(&self) -> (r: Elapsed)
        ensures
            r@ == self.interval_nanos(),
    {
        self.interval
    }

    /// The duration of a stream.
    pub fn duration(&self) -> (r: Elapsed)
        ensures
            r@ == self.duration_nanos(),
    {
        self.duration
    }

    /// The buffer size.
    pub fn size(&self) -> (r: usize)
        ensures
            r == self.buffer_size(),
    {
        self.size
    }

    /// Whether the number of connections of a run fits in a `usize`.
    pub fn threads_fit(&self) -> (r: bool)
        ensures
            r == (stream_sum(self.addr_list()) <= usize::MAX),
    {
        let n = self.addrs.len();
        let mut total: usize = 0;
        let mut i: usize = 0;
        assert(self.addrs@.take(0) =~= Seq::<(String, usize)>::empty());
        while i < n
            invariant
                n == self.addrs@.len(),
                i <= n,
                total == stream_sum(self.addrs@.take(i as int)),
            decreases n - i,
        {
            proof {
                assert(self.addrs@.take(i + 1).drop_last() =~= self.addrs@.take(i as int));
                lemma_stream_sum_prefix(self.addrs@, i + 1);
            }
            let streams = self.addrs[i].1;
            if streams > usize::MAX - total {
                return false;
            }
            total = total + streams;
            i = i + 1;
        }
        assert(self.addrs@.take(n as int) =~= self.addrs@);
        true
    }

    /// The number of connections a run opens: the sum of the stream counts
    /// of all addresses.
    pub fn thread_count(&self) -> (n: usize)
        requires
            stream_sum(self.addr_list()) <= usize::MAX,
        ensures
            n == stream_sum(self.addr_list()),
    {
        let n = self.addrs.len();
        let mut total: usize = 0;
        let mut i: usize = 0;
        assert(self.addrs@.take(0) =~= Seq::<(String, usize)>::empty());
        while i < n
            invariant
                n == self.addrs@.len(),
                i <= n,
                stream_sum(self.addrs@) <= usize::MAX,
                total == stream_sum(self.addrs@.take(i as int)),
            decreases n - i,
        {
            proof {
                assert(self.addrs@.take(i + 1).drop_last() =~= self.addrs@.take(i as int));
                lemma_stream_sum_prefix(self.addrs@, i + 1);
            }
            total = total + self.addrs[i].1;
            i = i + 1;
        }
        assert(self.addrs@.take(n as int) =~= self.addrs@);
        total
    }
}

/// A sum over a prefix of the addresses is no larger than over all of them.
proof fn lemma_stream_sum_prefix(addrs: Seq<(String, usize)>, i: int)
    requires
        0 <= i <= addrs.len(),
    ensures
        0 <= stream_sum(addrs.take(i)) <= stream_sum(addrs),
    decreases addrs.len(),
{
    if addrs.len() > 0 {
        if i < addrs.len() {
            assert(addrs.take(i) =~= addrs.drop_last().take(i));
            lemma_stream_sum_prefix(addrs.drop_last(), i);
        } else {
            assert(addrs.take(i) =~= addrs);
            lemma_stream_sum_prefix(addrs.drop_last(), i - 1);
            assert(addrs.drop_last().take(i - 1) =~= addrs.drop_last());
        }
    }
}

/// The connection count of a run adds up over its addresses: no address
/// counts nothing, one address counts its own streams, and two lists of
/// addresses one after the other count the sum of their counts.
pub proof fn lemma_stream_sum_adds_up(a: Seq<(String, usize)>, b: Seq<(String, usize)>, x: (String, usize))
    ensures
        stream_sum(Seq::empty()) == 0,
        stream_sum(seq![x]) == x.1,
        stream_sum(a + b) == stream_sum(a) + stream_sum(b),
    decreases b.len(),
{
    assert(seq![x].drop_last() =~= Seq::<(String, usize)>::empty());
    if b.len() == 0 {
        assert(a + b =~= a);
    } else {
        lemma_stream_sum_adds_up(a, b.drop_last(), x);
        assert((a + b).drop_last() =~= a + b.drop_last());
        assert((a + b).last() == b.last());
    }
}

} // verus!
