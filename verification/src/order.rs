use vstd::prelude::*;

use crate::rate::Rate;
use crate::totals::{
    Field, Key, field_of, group_sum, groups_by_peer, groups_by_stream, key_of, keys_in_order,
    last_threads, lemma_absent_group_is_zero, lemma_keys_cover, lemma_keys_distinct,
    lemma_one_total_per_peer, lemma_one_total_per_stream, lemma_summary_keeps_sums, sum_field,
};

verus! {

/// The sum of `c` over the items of `s`.
pub open spec fn sum_by<T>(s: Seq<T>, c: spec_fn(T) -> int) -> int
    decreases s.len(),
{
    if s.len() == 0 {
        0
    } else {
        sum_by(s.drop_last(), c) + c(s.last())
    }
}

/// Taking one item out of a list takes its value out of the sum.
proof fn lemma_sum_by_remove<T>(s: Seq<T>, i: int, c: spec_fn(T) -> int)
    requires
        0 <= i < s.len(),
    ensures
        sum_by(s, c) == sum_by(s.remove(i), c) + c(s[i]),
    decreases s.len(),
{
    if i == s.len() - 1 {
        assert(s.remove(i) =~= s.drop_last());
    } else {
        let t = s.drop_last();
        lemma_sum_by_remove(t, i, c);
        assert(s.remove(i).drop_last() =~= t.remove(i));
        assert(s.remove(i).last() == s.last());
    }
}

/// Lists with the same items, in any order, have the same sum.
proof fn lemma_sum_by_permutation<T>(a: Seq<T>, b: Seq<T>, c: spec_fn(T) -> int)
    requires
        a.to_multiset() =~= b.to_multiset(),
    ensures
        sum_by(a, c) == sum_by(b, c),
    decreases a.len(),
{
    broadcast use vstd::seq_lib::group_to_multiset_ensures;
    broadcast use vstd::multiset::group_multiset_axioms;

    if a.len() == 0 {
        assert(b.len() == b.to_multiset().len());
    } else {
        let x = a.last();
        let t = a.drop_last();
        assert(t.push(x) =~= a);
        assert(a[a.len() - 1] == x);
        assert(a.contains(x));
        assert(b.to_multiset().count(x) > 0);
        assert(b.contains(x));
        let i = choose|i: int| 0 <= i < b.len() && b[i] == x;
        assert(t.to_multiset() =~= b.remove(i).to_multiset());
        lemma_sum_by_permutation(t, b.remove(i), c);
        lemma_sum_by_remove(b, i, c);
    }
}

/// Two functions that agree on the items of a list give the same sum.
proof fn lemma_sum_by_ext<T>(s: Seq<T>, c1: spec_fn(T) -> int, c2: spec_fn(T) -> int)
    requires
        forall|i: int| 0 <= i < s.len() ==> c1(#[trigger] s[i]) == c2(s[i]),
    ensures
        sum_by(s, c1) == sum_by(s, c2),
    decreases s.len(),
{
    if s.len() > 0 {
        let t = s.drop_last();
        assert forall|i: int| 0 <= i < t.len() implies c1(#[trigger] t[i]) == c2(t[i]) by {
            assert(t[i] == s[i]);
        }
        lemma_sum_by_ext(t, c1, c2);
        assert(c1(s[s.len() - 1]) == c2(s[s.len() - 1]));
    }
}

/// Two lists of equal length whose values agree place by place have the
/// same sum.
proof fn lemma_sum_by_match<A, B>(a: Seq<A>, b: Seq<B>, ca: spec_fn(A) -> int, cb: spec_fn(B) -> int)
    requires
        a.len() == b.len(),
        forall|j: int| 0 <= j < a.len() ==> ca(#[trigger] a[j]) == cb(b[j]),
    ensures
        sum_by(a, ca) == sum_by(b, cb),
    decreases a.len(),
{
    if a.len() > 0 {
        let (x, y) = (a.drop_last(), b.drop_last());
        assert forall|j: int| 0 <= j < x.len() implies ca(#[trigger] x[j]) == cb(y[j]) by {
            assert(x[j] == a[j] && y[j] == b[j]);
        }
        lemma_sum_by_match(x, y, ca, cb);
        assert(ca(a[a.len() - 1]) == cb(b[b.len() - 1]));
    }
}

/// A group's sum as a sum over all measurements.
proof fn lemma_group_sum_by(s: Seq<Rate>, by_stream: bool, k: Key, f: Field, c: spec_fn(Rate) -> int)
    requires
        forall|r: Rate|
            #[trigger] c(r) == if key_of(r, by_stream) == k {
                field_of(r, f)
            } else {
                0
            },
    ensures
        group_sum(s, by_stream, k, f) == sum_by(s, c),
    decreases s.len(),
{
    if s.len() > 0 {
        lemma_group_sum_by(s.drop_last(), by_stream, k, f, c);
        assert(c(s.last()) == if key_of(s.last(), by_stream) == k {
            field_of(s.last(), f)
        } else {
            0
        });
    }
}

/// The sum of a quantity as a sum over all measurements.
proof fn lemma_sum_field_by(s: Seq<Rate>, f: Field, c: spec_fn(Rate) -> int)
    requires
        forall|r: Rate| #[trigger] c(r) == field_of(r, f),
    ensures
        sum_field(s, f) == sum_by(s, c),
    decreases s.len(),
{
    if s.len() > 0 {
        lemma_sum_field_by(s.drop_last(), f, c);
        assert(c(s.last()) == field_of(s.last(), f));
    }
}

/// Adding one measurement to the end adds its value, over a list of
/// different streams, to the streams of peer `p`, exactly when its stream is
/// in the list and its peer is `p`.
proof fn lemma_peer_over_streams_step(
    s: Seq<Rate>,
    p: Seq<char>,
    f: Field,
    keys: Seq<Key>,
    g: spec_fn(Key) -> int,
    g0: spec_fn(Key) -> int,
)
    requires
        s.len() > 0,
        keys.no_duplicates(),
        forall|k: Key|
            #[trigger] g(k) == if k.1 == p {
                group_sum(s, true, k, f)
            } else {
                0
            },
        forall|k: Key|
            #[trigger] g0(k) == if k.1 == p {
                group_sum(s.drop_last(), true, k, f)
            } else {
                0
            },
    ensures
        sum_by(keys, g) == sum_by(keys, g0) + if keys.contains(key_of(s.last(), true))
            && s.last().peer@ == p {
            field_of(s.last(), f)
        } else {
            0
        },
    decreases keys.len(),
{
    if keys.len() > 0 {
        let ks = keys.drop_last();
        assert(ks.no_duplicates());
        lemma_peer_over_streams_step(s, p, f, ks, g, g0);
        let kr = key_of(s.last(), true);
        let kl = keys.last();
        assert(g(kl) == g0(kl) + if kl == kr && kl.1 == p {
            field_of(s.last(), f)
        } else {
            0
        });
        if ks.contains(kr) {
            let j = choose|j: int| 0 <= j < ks.len() && ks[j] == kr;
            assert(keys[j] == kr);
            assert(kl != kr);
            assert(keys.contains(kr));
        }
        if kl == kr {
            assert(keys[keys.len() - 1] == kr);
            assert(keys.contains(kr));
        }
        if keys.contains(kr) && kl != kr {
            let j = choose|j: int| 0 <= j < keys.len() && keys[j] == kr;
            assert(j != keys.len() - 1);
            assert(ks[j] == kr);
        }
    }
}

/// Over the streams of a peer, the stream sums add up to that peer's sum.
proof fn lemma_peer_over_streams(s: Seq<Rate>, p: Seq<char>, f: Field, g: spec_fn(Key) -> int)
    requires
        forall|k: Key|
            #[trigger] g(k) == if k.1 == p {
                group_sum(s, true, k, f)
            } else {
                0
            },
    ensures
        sum_by(keys_in_order(s, true), g) == group_sum(s, false, (Seq::<char>::empty(), p), f),
    decreases s.len(),
{
    if s.len() > 0 {
        let t = s.drop_last();
        let r = s.last();
        let g0 = |k: Key|
            if k.1 == p {
                group_sum(t, true, k, f)
            } else {
                0int
            };
        lemma_peer_over_streams(t, p, f, g0);
        let prev = keys_in_order(t, true);
        let keys = keys_in_order(s, true);
        let kr = key_of(r, true);
        lemma_keys_distinct(s, true);
        lemma_keys_distinct(t, true);
        lemma_peer_over_streams_step(s, p, f, keys, g, g0);
        if prev.contains(kr) {
            assert(keys == prev);
        } else {
            assert(keys.drop_last() =~= prev);
            lemma_absent_group_is_zero(t, true, kr, f);
            assert(g0(kr) == 0);
        }
        assert(keys.contains(kr)) by {
            if !prev.contains(kr) {
                assert(keys[keys.len() - 1] == kr);
            }
        }
        assert((key_of(r, false) == (Seq::<char>::empty(), p)) == (r.peer@ == p));
    }
}

/// The total of peer `p` over the stream totals, for bytes or time, equals
/// the sum over the measurements of that peer.
proof fn lemma_peer_of_streams(rates: Seq<Rate>, streams: Seq<Rate>, p: Seq<char>, f: Field)
    requires
        groups_by_stream(rates, streams),
        f != Field::Threads,
    ensures
        group_sum(streams, false, (Seq::<char>::empty(), p), f) == group_sum(
            rates,
            false,
            (Seq::<char>::empty(), p),
            f,
        ),
{
    let kp = (Seq::<char>::empty(), p);
    let keys = keys_in_order(rates, true);
    let co = |r: Rate|
        if key_of(r, false) == kp {
            field_of(r, f)
        } else {
            0int
        };
    let g = |k: Key|
        if k.1 == p {
            group_sum(rates, true, k, f)
        } else {
            0int
        };
    lemma_group_sum_by(streams, false, kp, f, co);
    assert forall|j: int| 0 <= j < streams.len() implies co(#[trigger] streams[j]) == g(keys[j]) by {
        assert(streams[j].peer@ == keys[j].1);
    }
    lemma_sum_by_match(streams, keys, co, g);
    lemma_peer_over_streams(rates, p, f, g);
}

/// Per-peer totals over the stream totals are the per-peer sums over the
/// measurements: each peer line holds the bytes and the time of all
/// measurements of that peer.
pub proof fn lemma_peer_totals_over_streams(rates: Seq<Rate>, streams: Seq<Rate>, servers: Seq<Rate>)
    requires
        groups_by_stream(rates, streams),
        groups_by_peer(streams, servers),
    ensures
        forall|j: int|
            0 <= j < servers.len() ==> {
                &&& (#[trigger] servers[j]).bytes == group_sum(
                    rates,
                    false,
                    key_of(servers[j], false),
                    Field::Bytes,
                )
                &&& servers[j].elapsed@ == group_sum(
                    rates,
                    false,
                    key_of(servers[j], false),
                    Field::Nanos,
                )
            },
{
    let keys = keys_in_order(streams, false);
    lemma_keys_cover(streams, false);
    assert forall|j: int| 0 <= j < servers.len() implies {
        &&& (#[trigger] servers[j]).bytes == group_sum(
            rates,
            false,
            key_of(servers[j], false),
            Field::Bytes,
        )
        &&& servers[j].elapsed@ == group_sum(rates, false, key_of(servers[j], false), Field::Nanos)
    } by {
        let w = choose|w: int| 0 <= w < streams.len() && key_of(streams[w], false) == keys[j];
        assert(key_of(servers[j], false) == keys[j]);
        lemma_peer_of_streams(rates, streams, servers[j].peer@, Field::Bytes);
        lemma_peer_of_streams(rates, streams, servers[j].peer@, Field::Nanos);
    }
}


/// Lists without repeats that hold the same items hold them equally often.
proof fn lemma_distinct_same_items<T>(a: Seq<T>, b: Seq<T>)
    requires
        a.no_duplicates(),
        b.no_duplicates(),
        forall|x: T| a.contains(x) <==> b.contains(x),
    ensures
        a.to_multiset() =~= b.to_multiset(),
{
    broadcast use vstd::seq_lib::group_to_multiset_ensures;
    broadcast use vstd::multiset::group_multiset_axioms;

    a.lemma_multiset_has_no_duplicates();
    b.lemma_multiset_has_no_duplicates();
    assert forall|x: T| a.to_multiset().count(x) == b.to_multiset().count(x) by {
        if a.contains(x) {
            assert(a.to_multiset().count(x) > 0);
            assert(b.to_multiset().count(x) > 0);
        } else {
            assert(!(a.to_multiset().count(x) > 0));
            assert(!(b.to_multiset().count(x) > 0));
        }
    }
}

/// Measurements with the same items, in any order, have the same groups.
proof fn lemma_same_groups(r1: Seq<Rate>, r2: Seq<Rate>, by_stream: bool)
    requires
        r1.to_multiset() =~= r2.to_multiset(),
    ensures
        forall|k: Key|
            keys_in_order(r1, by_stream).contains(k) <==> keys_in_order(r2, by_stream).contains(k),
        keys_in_order(r1, by_stream).to_multiset() =~= keys_in_order(r2, by_stream).to_multiset(),
{
    broadcast use vstd::seq_lib::group_to_multiset_ensures;

    let (k1, k2) = (keys_in_order(r1, by_stream), keys_in_order(r2, by_stream));
    lemma_keys_cover(r1, by_stream);
    lemma_keys_cover(r2, by_stream);
    lemma_keys_distinct(r1, by_stream);
    lemma_keys_distinct(r2, by_stream);
    assert forall|k: Key| k1.contains(k) implies k2.contains(k) by {
        let j = choose|j: int| 0 <= j < k1.len() && k1[j] == k;
        let i = choose|i: int| 0 <= i < r1.len() && key_of(r1[i], by_stream) == k1[j];
        assert(r1.contains(r1[i]));
        assert(r2.to_multiset().count(r1[i]) > 0);
        let i2 = choose|i2: int| 0 <= i2 < r2.len() && r2[i2] == r1[i];
        assert(k2.contains(key_of(r2[i2], by_stream)));
    }
    assert forall|k: Key| k2.contains(k) implies k1.contains(k) by {
        let j = choose|j: int| 0 <= j < k2.len() && k2[j] == k;
        let i = choose|i: int| 0 <= i < r2.len() && key_of(r2[i], by_stream) == k2[j];
        assert(r2.contains(r2[i]));
        assert(r1.to_multiset().count(r2[i]) > 0);
        let i1 = choose|i1: int| 0 <= i1 < r1.len() && r1[i1] == r2[i];
        assert(k1.contains(key_of(r1[i1], by_stream)));
    }
    lemma_distinct_same_items(k1, k2);
}

/// The peers of the stream totals are the peers of the measurements.
proof fn lemma_stream_totals_same_peers(rates: Seq<Rate>, streams: Seq<Rate>)
    requires
        groups_by_stream(rates, streams),
    ensures
        forall|k: Key|
            keys_in_order(streams, false).contains(k) <==> keys_in_order(rates, false).contains(k),
{
    let (ks, kr) = (keys_in_order(streams, false), keys_in_order(rates, false));
    lemma_keys_cover(streams, false);
    lemma_keys_cover(rates, false);
    lemma_one_total_per_stream(rates, streams);
    assert forall|k: Key| ks.contains(k) implies kr.contains(k) by {
        let j = choose|j: int| 0 <= j < ks.len() && ks[j] == k;
        let w = choose|w: int| 0 <= w < streams.len() && key_of(streams[w], false) == ks[j];
        let i = choose|i: int|
            0 <= i < rates.len() && streams[w].local@ == rates[i].local@ && streams[w].peer@
                == rates[i].peer@;
        assert(key_of(rates[i], false) == k);
    }
    assert forall|k: Key| kr.contains(k) implies ks.contains(k) by {
        let j = choose|j: int| 0 <= j < kr.len() && kr[j] == k;
        let i = choose|i: int| 0 <= i < rates.len() && key_of(rates[i], false) == kr[j];
        let w = choose|w: int|
            0 <= w < streams.len() && streams[w].local@ == rates[i].local@ && streams[w].peer@
                == rates[i].peer@;
        assert(key_of(streams[w], false) == k);
    }
}

/// The threads of peer `p` over the stream totals: the last thread counts
/// of that peer's streams, added up.
proof fn lemma_peer_threads_of_streams(
    rates: Seq<Rate>,
    streams: Seq<Rate>,
    p: Seq<char>,
    g: spec_fn(Key) -> int,
)
    requires
        groups_by_stream(rates, streams),
        forall|k: Key|
            #[trigger] g(k) == if k.1 == p {
                last_threads(rates, k)
            } else {
                0
            },
    ensures
        group_sum(streams, false, (Seq::<char>::empty(), p), Field::Threads) == sum_by(
            keys_in_order(rates, true),
            g,
        ),
{
    let kp = (Seq::<char>::empty(), p);
    let keys = keys_in_order(rates, true);
    let co = |r: Rate|
        if key_of(r, false) == kp {
            field_of(r, Field::Threads)
        } else {
            0int
        };
    lemma_group_sum_by(streams, false, kp, Field::Threads, co);
    assert forall|j: int| 0 <= j < streams.len() implies co(#[trigger] streams[j]) == g(keys[j]) by {
        assert(streams[j].peer@ == keys[j].1);
    }
    lemma_sum_by_match(streams, keys, co, g);
}

/// The threads over all stream totals: the last thread counts of all
/// streams, added up.
proof fn lemma_threads_of_streams(rates: Seq<Rate>, streams: Seq<Rate>, g: spec_fn(Key) -> int)
    requires
        groups_by_stream(rates, streams),
        forall|k: Key| #[trigger] g(k) == last_threads(rates, k),
    ensures
        sum_field(streams, Field::Threads) == sum_by(keys_in_order(rates, true), g),
{
    let keys = keys_in_order(rates, true);
    let co = |r: Rate| field_of(r, Field::Threads);
    lemma_sum_field_by(streams, Field::Threads, co);
    assert forall|j: int| 0 <= j < streams.len() implies co(#[trigger] streams[j]) == g(keys[j]) by {}
    lemma_sum_by_match(streams, keys, co, g);
}

/// Two lines of totals say the same: same addresses, bytes, time and
/// threads.
pub open spec fn same_line(a: Rate, b: Rate) -> bool {
    &&& a.local@ == b.local@
    &&& a.peer@ == b.peer@
    &&& a.bytes == b.bytes
    &&& a.elapsed@ == b.elapsed@
    &&& a.threads == b.threads
}

/// The order in which measurements arrive does not change the summary:
/// where two runs received the same measurements in any order, and each
/// stream's last measurement carries the same thread count in both, they
/// have the same per-peer lines (each line of one is a line of the other)
/// and the same total bytes, time and threads.
pub proof fn lemma_summary_ignores_order(
    rates1: Seq<Rate>,
    streams1: Seq<Rate>,
    servers1: Seq<Rate>,
    rates2: Seq<Rate>,
    streams2: Seq<Rate>,
    servers2: Seq<Rate>,
)
    requires
        groups_by_stream(rates1, streams1),
        groups_by_peer(streams1, servers1),
        groups_by_stream(rates2, streams2),
        groups_by_peer(streams2, servers2),
        rates1.to_multiset() =~= rates2.to_multiset(),
        forall|k: Key| last_threads(rates1, k) == last_threads(rates2, k),
    ensures
        servers1.len() == servers2.len(),
        forall|j1: int|
            0 <= j1 < servers1.len() ==> exists|j2: int|
                0 <= j2 < servers2.len() && same_line(
                    #[trigger] servers1[j1],
                    #[trigger] servers2[j2],
                ),
        sum_field(servers1, Field::Bytes) == sum_field(servers2, Field::Bytes),
        sum_field(servers1, Field::Nanos) == sum_field(servers2, Field::Nanos),
        sum_field(servers1, Field::Threads) == sum_field(servers2, Field::Threads),
{
    broadcast use vstd::seq_lib::group_to_multiset_ensures;

    let (ks1, ks2) = (keys_in_order(streams1, false), keys_in_order(streams2, false));
    let (kt1, kt2) = (keys_in_order(rates1, true), keys_in_order(rates2, true));
    lemma_same_groups(rates1, rates2, false);
    lemma_same_groups(rates1, rates2, true);
    lemma_stream_totals_same_peers(rates1, streams1);
    lemma_stream_totals_same_peers(rates2, streams2);
    lemma_keys_distinct(streams1, false);
    lemma_keys_distinct(streams2, false);
    lemma_keys_cover(streams1, false);
    lemma_keys_cover(streams2, false);
    assert forall|k: Key| ks1.contains(k) <==> ks2.contains(k) by {}
    lemma_distinct_same_items(ks1, ks2);
    assert(ks1.len() == ks1.to_multiset().len());
    assert(ks2.len() == ks2.to_multiset().len());

    // per-peer lines
    lemma_peer_totals_over_streams(rates1, streams1, servers1);
    lemma_peer_totals_over_streams(rates2, streams2, servers2);
    assert forall|j1: int| 0 <= j1 < servers1.len() implies exists|j2: int|
        0 <= j2 < servers2.len() && same_line(
            #[trigger] servers1[j1],
            #[trigger] servers2[j2],
        ) by {
        let a = servers1[j1];
        let p = a.peer@;
        let kp = (Seq::<char>::empty(), p);
        let w = choose|w: int| 0 <= w < streams1.len() && key_of(streams1[w], false) == ks1[j1];
        assert(ks1[j1] == kp);
        assert(ks1.contains(kp));
        assert(ks2.contains(kp));
        let j2 = choose|j2: int| 0 <= j2 < ks2.len() && ks2[j2] == kp;
        let b = servers2[j2];
        assert(b.peer@ == p);
        assert(key_of(b, false) == kp);
        // bytes and time: sums over the measurements of the peer
        let cb = |r: Rate|
            if key_of(r, false) == kp {
                field_of(r, Field::Bytes)
            } else {
                0int
            };
        let cn = |r: Rate|
            if key_of(r, false) == kp {
                field_of(r, Field::Nanos)
            } else {
                0int
            };
        lemma_group_sum_by(rates1, false, kp, Field::Bytes, cb);
        lemma_group_sum_by(rates2, false, kp, Field::Bytes, cb);
        lemma_sum_by_permutation(rates1, rates2, cb);
        lemma_group_sum_by(rates1, false, kp, Field::Nanos, cn);
        lemma_group_sum_by(rates2, false, kp, Field::Nanos, cn);
        lemma_sum_by_permutation(rates1, rates2, cn);
        // threads: the last thread counts of the peer's streams
        let g1 = |k: Key|
            if k.1 == p {
                last_threads(rates1, k)
            } else {
                0int
            };
        let g2 = |k: Key|
            if k.1 == p {
                last_threads(rates2, k)
            } else {
                0int
            };
        lemma_peer_threads_of_streams(rates1, streams1, p, g1);
        lemma_peer_threads_of_streams(rates2, streams2, p, g2);
        lemma_sum_by_permutation(kt1, kt2, g1);
        assert forall|i: int| 0 <= i < kt2.len() implies g1(#[trigger] kt2[i]) == g2(kt2[i]) by {}
        lemma_sum_by_ext(kt2, g1, g2);
        assert(same_line(a, b));
    }

    // totals
    lemma_summary_keeps_sums(rates1, streams1, servers1);
    lemma_summary_keeps_sums(rates2, streams2, servers2);
    let fb = |r: Rate| field_of(r, Field::Bytes);
    let fnanos = |r: Rate| field_of(r, Field::Nanos);
    lemma_sum_field_by(rates1, Field::Bytes, fb);
    lemma_sum_field_by(rates2, Field::Bytes, fb);
    lemma_sum_by_permutation(rates1, rates2, fb);
    lemma_sum_field_by(rates1, Field::Nanos, fnanos);
    lemma_sum_field_by(rates2, Field::Nanos, fnanos);
    lemma_sum_by_permutation(rates1, rates2, fnanos);
    let t1 = |k: Key| last_threads(rates1, k);
    let t2 = |k: Key| last_threads(rates2, k);
    lemma_threads_of_streams(rates1, streams1, t1);
    lemma_threads_of_streams(rates2, streams2, t2);
    lemma_sum_by_permutation(kt1, kt2, t1);
    assert forall|i: int| 0 <= i < kt2.len() implies t1(#[trigger] kt2[i]) == t2(kt2[i]) by {}
    lemma_sum_by_ext(kt2, t1, t2);
}

} // verus!
