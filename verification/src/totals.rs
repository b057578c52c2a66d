use vstd::prelude::*;

use crate::elapsed::{Elapsed, MAX_NANOS};
use crate::rate::Rate;

verus! {

broadcast use vstd::string::to_string_from_display_ensures_for_str;

/// A quantity that measurements carry and that totals add up.
pub enum Field {
    Bytes,
    Nanos,
    Threads,
}

/// The value of a quantity in one measurement.
pub open spec fn field_of(r: Rate, f: Field) -> int {
    match f {
        Field::Bytes => r.bytes as int,
        Field::Nanos => r.elapsed@ as int,
        Field::Threads => r.threads as int,
    }
}

/// The sum of a quantity over measurements.
pub open spec fn sum_field(s: Seq<Rate>, f: Field) -> int
    decreases s.len(),
{
    if s.len() == 0 {
        0
    } else {
        sum_field(s.drop_last(), f) + field_of(s.last(), f)
    }
}

/// Whether the sums of bytes and of time over the measurements stay within
/// their ranges.
pub open spec fn sums_in_range(s: Seq<Rate>) -> bool {
    &&& sum_field(s, Field::Bytes) <= u64::MAX
    &&& sum_field(s, Field::Nanos) <= MAX_NANOS
}

/// What groups measurements together: the peer alone, or the pair of the
/// local and the peer address (a stream).
pub type Key = (Seq<char>, Seq<char>);

/// The group of a measurement: `(local, peer)` for streams; for peers the
/// peer, with an empty first part.
pub open spec fn key_of(r: Rate, by_stream: bool) -> Key {
    if by_stream {
        (r.local@, r.peer@)
    } else {
        (Seq::<char>::empty(), r.peer@)
    }
}

/// The groups of the measurements, each once, in the order in which they
/// first appear.
pub open spec fn keys_in_order(s: Seq<Rate>, by_stream: bool) -> Seq<Key>
    decreases s.len(),
{
    if s.len() == 0 {
        Seq::empty()
    } else {
        let prev = keys_in_order(s.drop_last(), by_stream);
        let k = key_of(s.last(), by_stream);
        if prev.contains(k) {
            prev
        } else {
            prev.push(k)
        }
    }
}

/// The sum of a quantity over the measurements of one group.
pub open spec fn group_sum(s: Seq<Rate>, by_stream: bool, k: Key, f: Field) -> int
    decreases s.len(),
{
    if s.len() == 0 {
        0
    } else {
        group_sum(s.drop_last(), by_stream, k, f) + if key_of(s.last(), by_stream) == k {
            field_of(s.last(), f)
        } else {
            0
        }
    }
}

/// The thread count of the last measurement of one stream.
pub open spec fn last_threads(s: Seq<Rate>, k: Key) -> int
    decreases s.len(),
{
    if s.len() == 0 {
        0
    } else if key_of(s.last(), true) == k {
        s.last().threads as int
    } else {
        last_threads(s.drop_last(), k)
    }
}

/// `out` holds one total per peer of `rates`, in the order in which the
/// peers first appear: local address "all", the peer, and the sums of bytes,
/// time and threads of that peer's measurements.
pub open spec fn groups_by_peer(rates: Seq<Rate>, out: Seq<Rate>) -> bool {
    let keys = keys_in_order(rates, false);
    &&& out.len() == keys.len()
    &&& forall|j: int|
        #![trigger out[j]]
        0 <= j < out.len() ==> {
            &&& out[j].local@ == "all"@
            &&& out[j].peer@ == keys[j].1
            &&& out[j].bytes == group_sum(rates, false, keys[j], Field::Bytes)
            &&& out[j].elapsed@ == group_sum(rates, false, keys[j], Field::Nanos)
            &&& out[j].threads == group_sum(rates, false, keys[j], Field::Threads)
        }
}

/// `out` holds one total per stream (pair of local and peer address) of
/// `rates`, in the order in which the streams first appear: the stream's
/// addresses, the sums of its bytes and time, and the thread count of its
/// last measurement.
pub open spec fn groups_by_stream(rates: Seq<Rate>, out: Seq<Rate>) -> bool {
    let keys = keys_in_order(rates, true);
    &&& out.len() == keys.len()
    &&& forall|j: int|
        #![trigger out[j]]
        0 <= j < out.len() ==> {
            &&& out[j].local@ == keys[j].0
            &&& out[j].peer@ == keys[j].1
            &&& out[j].bytes == group_sum(rates, true, keys[j], Field::Bytes)
            &&& out[j].elapsed@ == group_sum(rates, true, keys[j], Field::Nanos)
            &&& out[j].threads == last_threads(rates, keys[j])
        }
}

// ---------------------------------------------------------------------------
// Facts about sums and groups
// ---------------------------------------------------------------------------

proof fn lemma_sum_nonneg(s: Seq<Rate>, f: Field)
    ensures
        sum_field(s, f) >= 0,
    decreases s.len(),
{
    if s.len() > 0 {
        lemma_sum_nonneg(s.drop_last(), f);
    }
}

/// A sum over a prefix is no larger than the sum over the whole.
proof fn lemma_prefix_sum_le(s: Seq<Rate>, i: int, f: Field)
    requires
        0 <= i <= s.len(),
    ensures
        sum_field(s.take(i), f) <= sum_field(s, f),
    decreases s.len(),
{
    if i < s.len() {
        let t = s.drop_last();
        assert(s.take(i) =~= t.take(i));
        lemma_prefix_sum_le(t, i, f);
    } else {
        assert(s.take(i) =~= s);
    }
}

/// A group's sum is no larger than the sum over all measurements.
proof fn lemma_group_sum_le(s: Seq<Rate>, by_stream: bool, k: Key, f: Field)
    ensures
        0 <= group_sum(s, by_stream, k, f) <= sum_field(s, f),
    decreases s.len(),
{
    if s.len() > 0 {
        lemma_group_sum_le(s.drop_last(), by_stream, k, f);
    }
}

/// The groups in order are all different.
pub(crate) proof fn lemma_keys_distinct(s: Seq<Rate>, by_stream: bool)
    ensures
        keys_in_order(s, by_stream).no_duplicates(),
    decreases s.len(),
{
    if s.len() > 0 {
        lemma_keys_distinct(s.drop_last(), by_stream);
    }
}

/// Every measurement's group is among the groups in order, and every group
/// in order is that of some measurement.
pub(crate) proof fn lemma_keys_cover(s: Seq<Rate>, by_stream: bool)
    ensures
        forall|i: int|
            0 <= i < s.len() ==> keys_in_order(s, by_stream).contains(
                #[trigger] key_of(s[i], by_stream),
            ),
        forall|j: int|
            0 <= j < keys_in_order(s, by_stream).len() ==> exists|i: int|
                0 <= i < s.len() && key_of(s[i], by_stream) == #[trigger] keys_in_order(
                    s,
                    by_stream,
                )[j],
    decreases s.len(),
{
    if s.len() > 0 {
        let t = s.drop_last();
        lemma_keys_cover(t, by_stream);
        let prev = keys_in_order(t, by_stream);
        let keys = keys_in_order(s, by_stream);
        assert forall|i: int| 0 <= i < s.len() implies keys.contains(
            #[trigger] key_of(s[i], by_stream),
        ) by {
            if i < s.len() - 1 {
                assert(t[i] == s[i]);
                assert(prev.contains(key_of(t[i], by_stream)));
                let w = choose|w: int| 0 <= w < prev.len() && prev[w] == key_of(t[i], by_stream);
                assert(keys[w] == prev[w]);
            } else {
                if !prev.contains(key_of(s.last(), by_stream)) {
                    assert(keys[keys.len() - 1] == key_of(s.last(), by_stream));
                }
            }
        }
        assert forall|j: int| 0 <= j < keys.len() implies exists|i: int|
            0 <= i < s.len() && key_of(s[i], by_stream) == #[trigger] keys[j] by {
            if j < prev.len() {
                assert(keys[j] == prev[j]);
                let i = choose|i: int| 0 <= i < t.len() && key_of(t[i], by_stream) == prev[j];
                assert(s[i] == t[i]);
            } else {
                assert(key_of(s[s.len() - 1], by_stream) == keys[j]);
            }
        }
    }
}

/// A group that no measurement belongs to sums to nothing.
pub(crate) proof fn lemma_absent_group_is_zero(s: Seq<Rate>, by_stream: bool, k: Key, f: Field)
    requires
        !keys_in_order(s, by_stream).contains(k),
    ensures
        group_sum(s, by_stream, k, f) == 0,
    decreases s.len(),
{
    if s.len() > 0 {
        let t = s.drop_last();
        let prev = keys_in_order(t, by_stream);
        if prev.contains(k) {
            let j = choose|j: int| 0 <= j < prev.len() && prev[j] == k;
            let keys = keys_in_order(s, by_stream);
            if prev.contains(key_of(s.last(), by_stream)) {
                assert(keys.contains(k));
            } else {
                assert(keys[j] == k);
            }
        }
        lemma_absent_group_is_zero(t, by_stream, k, f);
        if key_of(s.last(), by_stream) == k {
            let keys = keys_in_order(s, by_stream);
            assert(!prev.contains(k));
            assert(keys[keys.len() - 1] == k);
        }
    }
}

/// The sum, over a list of groups, of each group's sum.
pub open spec fn sum_over_keys(s: Seq<Rate>, by_stream: bool, keys: Seq<Key>, f: Field) -> int
    decreases keys.len(),
{
    if keys.len() == 0 {
        0
    } else {
        sum_over_keys(s, by_stream, keys.drop_last(), f) + group_sum(
            s,
            by_stream,
            keys.last(),
            f,
        )
    }
}

/// Adding one measurement to the end adds its value to the sum over a list
/// of different groups exactly when its group is in the list.
proof fn lemma_sum_over_keys_step(s: Seq<Rate>, by_stream: bool, keys: Seq<Key>, f: Field)
    requires
        s.len() > 0,
        keys.no_duplicates(),
    ensures
        sum_over_keys(s, by_stream, keys, f) == sum_over_keys(s.drop_last(), by_stream, keys, f)
            + if keys.contains(key_of(s.last(), by_stream)) {
            field_of(s.last(), f)
        } else {
            0
        },
    decreases keys.len(),
{
    if keys.len() > 0 {
        let ks = keys.drop_last();
        assert(ks.no_duplicates());
        lemma_sum_over_keys_step(s, by_stream, ks, f);
        let kr = key_of(s.last(), by_stream);
        if ks.contains(kr) {
            let j = choose|j: int| 0 <= j < ks.len() && ks[j] == kr;
            assert(keys[j] == kr);
            assert(keys.last() != kr);
            assert(keys.contains(kr));
        }
        if keys.last() == kr {
            assert(keys.contains(kr));
        }
        if keys.contains(kr) && keys.last() != kr {
            let j = choose|j: int| 0 <= j < keys.len() && keys[j] == kr;
            assert(j != keys.len() - 1);
            assert(ks[j] == kr);
        }
    }
}

/// The sums of all groups together make the sum over all measurements.
proof fn lemma_groups_make_total(s: Seq<Rate>, by_stream: bool, f: Field)
    ensures
        sum_over_keys(s, by_stream, keys_in_order(s, by_stream), f) == sum_field(s, f),
    decreases s.len(),
{
    if s.len() > 0 {
        let t = s.drop_last();
        lemma_groups_make_total(t, by_stream, f);
        let prev = keys_in_order(t, by_stream);
        let keys = keys_in_order(s, by_stream);
        let kr = key_of(s.last(), by_stream);
        lemma_keys_distinct(s, by_stream);
        lemma_keys_distinct(t, by_stream);
        lemma_sum_over_keys_step(s, by_stream, keys, f);
        if !prev.contains(kr) {
            assert(keys.drop_last() =~= prev);
            lemma_sum_over_keys_step(s, by_stream, prev, f);
            lemma_absent_group_is_zero(t, by_stream, kr, f);
            assert(keys.contains(kr)) by {
                assert(keys[keys.len() - 1] == kr);
            }
        }
    }
}

/// Measurements whose values are the group sums add up to the sum over the
/// groups.
proof fn lemma_outputs_sum(s: Seq<Rate>, by_stream: bool, keys: Seq<Key>, out: Seq<Rate>, f: Field)
    requires
        out.len() == keys.len(),
        forall|j: int|
            0 <= j < out.len() ==> field_of(#[trigger] out[j], f) == group_sum(
                s,
                by_stream,
                keys[j],
                f,
            ),
    ensures
        sum_field(out, f) == sum_over_keys(s, by_stream, keys, f),
    decreases out.len(),
{
    if out.len() > 0 {
        let o = out.drop_last();
        let ks = keys.drop_last();
        assert forall|j: int| 0 <= j < o.len() implies field_of(#[trigger] o[j], f) == group_sum(
            s,
            by_stream,
            ks[j],
            f,
        ) by {
            assert(o[j] == out[j]);
        }
        lemma_outputs_sum(s, by_stream, ks, o, f);
        assert(field_of(out[out.len() - 1], f) == group_sum(s, by_stream, keys.last(), f));
    }
}

/// Totals per peer keep the totals: summing the per-peer totals gives the
/// same bytes, time and threads as summing all measurements.
pub proof fn lemma_peer_totals_keep_sums(rates: Seq<Rate>, out: Seq<Rate>)
    requires
        groups_by_peer(rates, out),
    ensures
        sum_field(out, Field::Bytes) == sum_field(rates, Field::Bytes),
        sum_field(out, Field::Nanos) == sum_field(rates, Field::Nanos),
        sum_field(out, Field::Threads) == sum_field(rates, Field::Threads),
{
    let keys = keys_in_order(rates, false);
    assert forall|j: int| 0 <= j < out.len() implies field_of(#[trigger] out[j], Field::Bytes)
        == group_sum(rates, false, keys[j], Field::Bytes) by {}
    assert forall|j: int| 0 <= j < out.len() implies field_of(#[trigger] out[j], Field::Nanos)
        == group_sum(rates, false, keys[j], Field::Nanos) by {}
    assert forall|j: int| 0 <= j < out.len() implies field_of(#[trigger] out[j], Field::Threads)
        == group_sum(rates, false, keys[j], Field::Threads) by {}
    lemma_outputs_sum(rates, false, keys, out, Field::Bytes);
    lemma_outputs_sum(rates, false, keys, out, Field::Nanos);
    lemma_outputs_sum(rates, false, keys, out, Field::Threads);
    lemma_groups_make_total(rates, false, Field::Bytes);
    lemma_groups_make_total(rates, false, Field::Nanos);
    lemma_groups_make_total(rates, false, Field::Threads);
}

/// Totals per stream keep the totals of bytes and time: summing the
/// per-stream totals gives the same as summing all measurements.
pub proof fn lemma_stream_totals_keep_sums(rates: Seq<Rate>, out: Seq<Rate>)
    requires
        groups_by_stream(rates, out),
    ensures
        sum_field(out, Field::Bytes) == sum_field(rates, Field::Bytes),
        sum_field(out, Field::Nanos) == sum_field(rates, Field::Nanos),
{
    let keys = keys_in_order(rates, true);
    assert forall|j: int| 0 <= j < out.len() implies field_of(#[trigger] out[j], Field::Bytes)
        == group_sum(rates, true, keys[j], Field::Bytes) by {}
    assert forall|j: int| 0 <= j < out.len() implies field_of(#[trigger] out[j], Field::Nanos)
        == group_sum(rates, true, keys[j], Field::Nanos) by {}
    lemma_outputs_sum(rates, true, keys, out, Field::Bytes);
    lemma_outputs_sum(rates, true, keys, out, Field::Nanos);
    lemma_groups_make_total(rates, true, Field::Bytes);
    lemma_groups_make_total(rates, true, Field::Nanos);
}

/// Totals per peer name each peer of the measurements exactly once, and no
/// other.
pub proof fn lemma_one_total_per_peer(rates: Seq<Rate>, out: Seq<Rate>)
    requires
        groups_by_peer(rates, out),
    ensures
        forall|i: int, j: int|
            0 <= i < j < out.len() ==> (#[trigger] out[i]).peer@ != (#[trigger] out[j]).peer@,
        forall|k: int|
            0 <= k < rates.len() ==> exists|j: int|
                0 <= j < out.len() && (#[trigger] out[j]).peer@ == (#[trigger] rates[k]).peer@,
        forall|j: int|
            0 <= j < out.len() ==> exists|k: int|
                0 <= k < rates.len() && (#[trigger] out[j]).peer@ == (#[trigger] rates[k]).peer@,
{
    let keys = keys_in_order(rates, false);
    lemma_keys_distinct(rates, false);
    lemma_keys_cover(rates, false);
    assert forall|i: int, j: int| 0 <= i < j < out.len() implies (#[trigger] out[i]).peer@ != (
    #[trigger] out[j]).peer@ by {
        assert(keys[i].0 == Seq::<char>::empty());
        assert(keys[j].0 == Seq::<char>::empty()) by {
            let w = choose|w: int| 0 <= w < rates.len() && key_of(rates[w], false) == keys[j];
        }
        let v = choose|w: int| 0 <= w < rates.len() && key_of(rates[w], false) == keys[i];
        assert(keys[i] != keys[j]);
    }
    assert forall|k: int| 0 <= k < rates.len() implies exists|j: int|
        0 <= j < out.len() && (#[trigger] out[j]).peer@ == (#[trigger] rates[k]).peer@ by {
        assert(keys.contains(key_of(rates[k], false)));
        let j = choose|j: int| 0 <= j < keys.len() && keys[j] == key_of(rates[k], false);
        assert(out[j].peer@ == rates[k].peer@);
    }
    assert forall|j: int| 0 <= j < out.len() implies exists|k: int|
        0 <= k < rates.len() && (#[trigger] out[j]).peer@ == (#[trigger] rates[k]).peer@ by {
        let k = choose|k: int| 0 <= k < rates.len() && key_of(rates[k], false) == keys[j];
        assert(out[j].peer@ == rates[k].peer@);
    }
}


/// Totals per stream name each stream (pair of local and peer address) of
/// the measurements exactly once, and no other.
pub proof fn lemma_one_total_per_stream(rates: Seq<Rate>, out: Seq<Rate>)
    requires
        groups_by_stream(rates, out),
    ensures
        forall|i: int, j: int|
            0 <= i < j < out.len() ==> ((#[trigger] out[i]).local@, out[i].peer@) != (
                (#[trigger] out[j]).local@,
                out[j].peer@,
            ),
        forall|k: int|
            0 <= k < rates.len() ==> exists|j: int|
                0 <= j < out.len() && (#[trigger] out[j]).local@ == (#[trigger] rates[k]).local@
                    && out[j].peer@ == rates[k].peer@,
        forall|j: int|
            0 <= j < out.len() ==> exists|k: int|
                0 <= k < rates.len() && (#[trigger] out[j]).local@ == (#[trigger] rates[k]).local@
                    && out[j].peer@ == rates[k].peer@,
{
    let keys = keys_in_order(rates, true);
    lemma_keys_distinct(rates, true);
    lemma_keys_cover(rates, true);
    assert forall|i: int, j: int| 0 <= i < j < out.len() implies ((#[trigger] out[i]).local@,
    out[i].peer@) != ((#[trigger] out[j]).local@, out[j].peer@) by {
        assert(keys[i] != keys[j]);
    }
    assert forall|k: int| 0 <= k < rates.len() implies exists|j: int|
        0 <= j < out.len() && (#[trigger] out[j]).local@ == (#[trigger] rates[k]).local@
            && out[j].peer@ == rates[k].peer@ by {
        assert(keys.contains(key_of(rates[k], true)));
        let j = choose|j: int| 0 <= j < keys.len() && keys[j] == key_of(rates[k], true);
        assert(out[j].local@ == rates[k].local@);
    }
    assert forall|j: int| 0 <= j < out.len() implies exists|k: int|
        0 <= k < rates.len() && (#[trigger] out[j]).local@ == (#[trigger] rates[k]).local@
            && out[j].peer@ == rates[k].peer@ by {
        let k = choose|k: int| 0 <= k < rates.len() && key_of(rates[k], true) == keys[j];
        assert(out[j].local@ == rates[k].local@);
    }
}

// ---------------------------------------------------------------------------
// Executable totals
// ---------------------------------------------------------------------------

/// `out` holds the totals of `rates` per stream, or per peer.
pub open spec fn grouped(rates: Seq<Rate>, out: Seq<Rate>, by_stream: bool) -> bool {
    if by_stream {
        groups_by_stream(rates, out)
    } else {
        groups_by_peer(rates, out)
    }
}

/// The position in `out` of the total of `r`'s group, if there is one.
fn find_group(out: &Vec<Rate>, r: &Rate, by_stream: bool) -> (found: Option<usize>)
    ensures
        match found {
            Some(j) => j < out.len() && key_of(out@[j as int], by_stream) == key_of(*r, by_stream),
            None => forall|j: int|
                0 <= j < out.len() ==> key_of(#[trigger] out@[j], by_stream) != key_of(
                    *r,
                    by_stream,
                ),
        },
{
    let mut j: usize = 0;
    while j < out.len()
        invariant
            j <= out.len(),
            forall|i: int|
                0 <= i < j ==> key_of(#[trigger] out@[i], by_stream) != key_of(*r, by_stream),
        decreases out.len() - j,
    {
        let same_peer = out[j].peer == r.peer;
        let same = if by_stream {
            same_peer && out[j].local == r.local
        } else {
            same_peer
        };
        if same {
            return Some(j);
        }
        j = j + 1;
    }
    None
}

/// The totals of `rates` per stream or per peer, built in one pass.
fn group_rates(rates: &Vec<Rate>, by_stream: bool) -> (out: Vec<Rate>)
    requires
        sums_in_range(rates@),
        !by_stream ==> sum_field(rates@, Field::Threads) <= usize::MAX,
    ensures
        grouped(rates@, out@, by_stream),
{
    let mut out: Vec<Rate> = Vec::new();
    let n = rates.len();
    let mut i: usize = 0;
    assert(rates@.take(0) =~= Seq::<Rate>::empty());
    while i < n
        invariant
            n == rates.len(),
            i <= n,
            sums_in_range(rates@),
            !by_stream ==> sum_field(rates@, Field::Threads) <= usize::MAX,
            grouped(rates@.take(i as int), out@, by_stream),
        decreases n - i,
    {
        let ghost before = rates@.take(i as int);
        let ghost after = rates@.take(i + 1);
        let ghost keys = keys_in_order(before, by_stream);
        let ghost old_out = out@;
        let r = &rates[i];
        proof {
            assert(after.drop_last() =~= before);
            assert(after.last() == rates@[i as int]);
            lemma_prefix_sum_le(rates@, i + 1, Field::Bytes);
            lemma_prefix_sum_le(rates@, i + 1, Field::Nanos);
            lemma_prefix_sum_le(rates@, i + 1, Field::Threads);
            lemma_sum_nonneg(before, Field::Bytes);
            lemma_sum_nonneg(before, Field::Nanos);
            lemma_sum_nonneg(before, Field::Threads);
            lemma_keys_distinct(before, by_stream);
            lemma_keys_cover(before, by_stream);
            assert forall|m: int| 0 <= m < old_out.len() implies key_of(
                #[trigger] old_out[m],
                by_stream,
            ) == keys[m] by {
                let w = choose|w: int|
                    0 <= w < before.len() && key_of(before[w], by_stream) == keys[m];
            }
        }
        match find_group(&out, r, by_stream) {
            Some(j) => {
                let ghost k = keys[j as int];
                proof {
                    lemma_group_sum_le(before, by_stream, k, Field::Bytes);
                    lemma_group_sum_le(before, by_stream, k, Field::Nanos);
                    lemma_group_sum_le(before, by_stream, k, Field::Threads);
                    assert(keys.contains(key_of(*r, by_stream)));
                }
                let cur = &out[j];
                let threads = if by_stream {
                    r.threads
                } else {
                    cur.threads + r.threads
                };
                let updated = Rate {
                    local: cur.local.clone(),
                    peer: cur.peer.clone(),
                    bytes: cur.bytes + r.bytes,
                    elapsed: cur.elapsed.add(&r.elapsed),
                    threads,
                };
                out.set(j, updated);
                proof {
                    assert(keys_in_order(after, by_stream) == keys);
                    assert forall|m: int| 0 <= m < out@.len() && m != j implies keys[m] != key_of(
                        *r,
                        by_stream,
                    ) by {
                        assert(keys[m] != keys[j as int]);
                    }
                }
            },
            None => {
                proof {
                    assert(!keys.contains(key_of(*r, by_stream))) by {
                        if keys.contains(key_of(*r, by_stream)) {
                            let m = choose|m: int|
                                0 <= m < keys.len() && keys[m] == key_of(*r, by_stream);
                            assert(key_of(out@[m], by_stream) == keys[m]);
                        }
                    }
                    lemma_absent_group_is_zero(before, by_stream, key_of(*r, by_stream), Field::Bytes);
                    lemma_absent_group_is_zero(before, by_stream, key_of(*r, by_stream), Field::Nanos);
                    lemma_absent_group_is_zero(before, by_stream, key_of(*r, by_stream), Field::Threads);
                }
                let local = if by_stream {
                    r.local.clone()
                } else {
                    "all".to_string()
                };
                out.push(
                    Rate {
                        local,
                        peer: r.peer.clone(),
                        bytes: r.bytes,
                        elapsed: r.elapsed,
                        threads: r.threads,
                    },
                );
                proof {
                    assert(keys_in_order(after, by_stream) == keys.push(key_of(*r, by_stream)));
                }
            },
        }
        i = i + 1;
    }
    assert(rates@.take(n as int) =~= rates@);
    out
}

/// The totals of `rates` per peer, in the order in which the peers first
/// appear: for each, local address "all", the peer, and the sums of bytes,
/// time and threads of its measurements.
pub fn rates_by_peer(rates: &Vec<Rate>) -> (out: Vec<Rate>)
    requires
        sums_in_range(rates@),
        sum_field(rates@, Field::Threads) <= usize::MAX,
    ensures
        groups_by_peer(rates@, out@),
{
    group_rates(rates, false)
}

/// The totals of `rates` per stream (pair of local and peer address), in
/// the order in which the streams first appear: for each, its addresses, the
/// sums of its bytes and time, and the thread count of its last measurement.
pub fn rates_by_stream(rates: &Vec<Rate>) -> (out: Vec<Rate>)
    requires
        sums_in_range(rates@),
    ensures
        groups_by_stream(rates@, out@),
{
    group_rates(rates, true)
}


/// The bytes, time and (where `count_threads`) threads summed over the
/// measurements each stay within their ranges.
pub open spec fn totals_fit(s: Seq<Rate>, count_threads: bool) -> bool {
    &&& sums_in_range(s)
    &&& count_threads ==> sum_field(s, Field::Threads) <= usize::MAX
}

/// Whether the sums of bytes and time over `rates`, and, where
/// `count_threads`, of threads, stay within their ranges.
pub fn sums_fit(rates: &Vec<Rate>, count_threads: bool) -> (r: bool)
    ensures
        r == totals_fit(rates@, count_threads),
        r == {
            &&& sum_field(rates@, Field::Bytes) <= u64::MAX
            &&& sum_field(rates@, Field::Nanos) <= (u64::MAX as int) * 1_000_000_000 + 999_999_999
            &&& count_threads ==> sum_field(rates@, Field::Threads) <= usize::MAX
        },
{
    let n = rates.len();
    let mut bytes: u64 = 0;
    let mut elapsed = Elapsed::zero();
    let mut threads: usize = 0;
    let mut i: usize = 0;
    assert(rates@.take(0) =~= Seq::<Rate>::empty());
    while i < n
        invariant
            n == rates.len(),
            i <= n,
            bytes == sum_field(rates@.take(i as int), Field::Bytes),
            elapsed@ == sum_field(rates@.take(i as int), Field::Nanos),
            elapsed@ <= MAX_NANOS,
            count_threads ==> threads == sum_field(rates@.take(i as int), Field::Threads),
        decreases n - i,
    {
        let ghost after = rates@.take(i + 1);
        proof {
            assert(after.drop_last() =~= rates@.take(i as int));
            assert(after.last() == rates@[i as int]);
            lemma_prefix_sum_le(rates@, i + 1, Field::Bytes);
            lemma_prefix_sum_le(rates@, i + 1, Field::Nanos);
            lemma_prefix_sum_le(rates@, i + 1, Field::Threads);
        }
        let r = &rates[i];
        if r.bytes > u64::MAX - bytes {
            return false;
        }
        bytes = bytes + r.bytes;
        match elapsed.checked_add(&r.elapsed) {
            Some(e) => {
                elapsed = e;
            },
            None => {
                return false;
            },
        }
        if count_threads {
            if r.threads > usize::MAX - threads {
                return false;
            }
            threads = threads + r.threads;
        }
        i = i + 1;
    }
    assert(rates@.take(n as int) =~= rates@);
    true
}

/// The running sums of bytes and time over `rates`.
fn sum_bytes_and_time(rates: &Vec<Rate>) -> (res: (u64, Elapsed))
    requires
        sums_in_range(rates@),
    ensures
        res.0 == sum_field(rates@, Field::Bytes),
        res.1@ == sum_field(rates@, Field::Nanos),
{
    let n = rates.len();
    let mut bytes: u64 = 0;
    let mut elapsed = Elapsed::zero();
    let mut i: usize = 0;
    assert(rates@.take(0) =~= Seq::<Rate>::empty());
    while i < n
        invariant
            n == rates.len(),
            i <= n,
            sums_in_range(rates@),
            bytes == sum_field(rates@.take(i as int), Field::Bytes),
            elapsed@ == sum_field(rates@.take(i as int), Field::Nanos),
        decreases n - i,
    {
        let ghost after = rates@.take(i + 1);
        proof {
            assert(after.drop_last() =~= rates@.take(i as int));
            assert(after.last() == rates@[i as int]);
            lemma_prefix_sum_le(rates@, i + 1, Field::Bytes);
            lemma_prefix_sum_le(rates@, i + 1, Field::Nanos);
        }
        let r = &rates[i];
        bytes = bytes + r.bytes;
        elapsed = elapsed.add(&r.elapsed);
        i = i + 1;
    }
    assert(rates@.take(n as int) =~= rates@);
    (bytes, elapsed)
}

/// The grand total of `rates`: local and peer "all", and the sums of bytes,
/// time and threads.
pub fn sum_rates(rates: &Vec<Rate>) -> (t: Rate)
    requires
        totals_fit(rates@, true),
    ensures
        t.local@ == "all"@,
        t.peer@ == "all"@,
        t.bytes == sum_field(rates@, Field::Bytes),
        t.elapsed@ == sum_field(rates@, Field::Nanos),
        t.threads == sum_field(rates@, Field::Threads),
{
    let (bytes, elapsed) = sum_bytes_and_time(rates);
    let n = rates.len();
    let mut threads: usize = 0;
    let mut i: usize = 0;
    assert(rates@.take(0) =~= Seq::<Rate>::empty());
    while i < n
        invariant
            n == rates.len(),
            i <= n,
            sum_field(rates@, Field::Threads) <= usize::MAX,
            threads == sum_field(rates@.take(i as int), Field::Threads),
        decreases n - i,
    {
        proof {
            assert(rates@.take(i + 1).drop_last() =~= rates@.take(i as int));
            lemma_prefix_sum_le(rates@, i + 1, Field::Threads);
        }
        threads = threads + rates[i].threads;
        i = i + 1;
    }
    assert(rates@.take(n as int) =~= rates@);
    Rate { local: "all".to_string(), peer: "all".to_string(), bytes, elapsed, threads }
}

/// The total over the streams of one client run: local and peer "all", the
/// sums of bytes and time, and `threads` as the number of streams.
pub fn total_rate(rates: &Vec<Rate>, threads: usize) -> (t: Rate)
    requires
        sums_in_range(rates@),
    ensures
        t.local@ == "all"@,
        t.peer@ == "all"@,
        t.bytes == sum_field(rates@, Field::Bytes),
        t.elapsed@ == sum_field(rates@, Field::Nanos),
        t.threads == threads,
{
    let (bytes, elapsed) = sum_bytes_and_time(rates);
    Rate { local: "all".to_string(), peer: "all".to_string(), bytes, elapsed, threads }
}


/// Two lists of measurements with the same values of a quantity, place by
/// place, have the same sum of it.
proof fn lemma_sum_pointwise(a: Seq<Rate>, b: Seq<Rate>, f: Field)
    requires
        a.len() == b.len(),
        forall|j: int| 0 <= j < a.len() ==> field_of(#[trigger] a[j], f) == field_of(b[j], f),
    ensures
        sum_field(a, f) == sum_field(b, f),
    decreases a.len(),
{
    if a.len() > 0 {
        let (x, y) = (a.drop_last(), b.drop_last());
        assert forall|j: int| 0 <= j < x.len() implies field_of(#[trigger] x[j], f) == field_of(
            y[j],
            f,
        ) by {
            assert(x[j] == a[j] && y[j] == b[j]);
        }
        lemma_sum_pointwise(x, y, f);
        assert(field_of(a[a.len() - 1], f) == field_of(b[b.len() - 1], f));
    }
}

/// What was received, summed up: the totals per stream, per peer, and over
/// everything.
pub struct Summary {
    pub streams: Vec<Rate>,
    pub servers: Vec<Rate>,
    pub total: Rate,
}

/// Sums up received measurements: first per stream (keeping each stream's
/// last thread count), then those stream totals per peer, then everything.
/// `None` exactly where the thread counts of the stream totals add up beyond
/// a `usize`.
pub fn summarize(rates: &Vec<Rate>) -> (r: Option<Summary>)
    requires
        sums_in_range(rates@),
    ensures
        match r {
            Some(sm) => {
                &&& groups_by_stream(rates@, sm.streams@)
                &&& groups_by_peer(sm.streams@, sm.servers@)
                &&& sm.total.local@ == "all"@
                &&& sm.total.peer@ == "all"@
                &&& sm.total.bytes == sum_field(rates@, Field::Bytes)
                &&& sm.total.elapsed@ == sum_field(rates@, Field::Nanos)
                &&& sm.total.threads == sum_field(sm.streams@, Field::Threads)
            },
            None => forall|s: Seq<Rate>|
                #![trigger groups_by_stream(rates@, s)]
                groups_by_stream(rates@, s) ==> sum_field(s, Field::Threads) > usize::MAX,
        },
{
    let streams = rates_by_stream(rates);
    proof {
        lemma_stream_totals_keep_sums(rates@, streams@);
    }
    if !sums_fit(&streams, true) {
        proof {
            assert forall|s: Seq<Rate>| groups_by_stream(rates@, s) implies sum_field(
                s,
                Field::Threads,
            ) > usize::MAX by {
                assert forall|j: int| 0 <= j < s.len() implies field_of(
                    #[trigger] s[j],
                    Field::Threads,
                ) == field_of(streams@[j], Field::Threads) by {
                    assert(streams@[j].threads == last_threads(
                        rates@,
                        keys_in_order(rates@, true)[j],
                    ));
                }
                lemma_sum_pointwise(s, streams@, Field::Threads);
            }
        }
        return None;
    }
    let servers = rates_by_peer(&streams);
    proof {
        lemma_peer_totals_keep_sums(streams@, servers@);
    }
    let total = sum_rates(&servers);
    Some(Summary { streams, servers, total })
}

/// Summing up per stream and then per peer keeps the totals: the peer
/// totals add up to the bytes and time of everything received, and to the
/// thread counts of the stream totals.
pub proof fn lemma_summary_keeps_sums(rates: Seq<Rate>, streams: Seq<Rate>, servers: Seq<Rate>)
    requires
        groups_by_stream(rates, streams),
        groups_by_peer(streams, servers),
    ensures
        sum_field(servers, Field::Bytes) == sum_field(rates, Field::Bytes),
        sum_field(servers, Field::Nanos) == sum_field(rates, Field::Nanos),
        sum_field(servers, Field::Threads) == sum_field(streams, Field::Threads),
{
    lemma_stream_totals_keep_sums(rates, streams);
    lemma_peer_totals_keep_sums(streams, servers);
}


/// Sums up the measurements of one sending run: the totals per peer, and
/// the total over those.
pub fn peer_summary(rates: &Vec<Rate>) -> (r: (Vec<Rate>, Rate))
    requires
        totals_fit(rates@, true),
    ensures
        groups_by_peer(rates@, r.0@),
        r.1.local@ == "all"@,
        r.1.peer@ == "all"@,
        r.1.bytes == sum_field(rates@, Field::Bytes),
        r.1.elapsed@ == sum_field(rates@, Field::Nanos),
        r.1.threads == sum_field(rates@, Field::Threads),
{
    let peers = rates_by_peer(rates);
    proof {
        lemma_peer_totals_keep_sums(rates@, peers@);
    }
    let total = sum_rates(&peers);
    (peers, total)
}


/// Measurements fit their totals exactly when the summed bytes fit a `u64`,
/// the summed time is at most `u64::MAX` seconds and 999_999_999
/// nanoseconds, and, where threads are counted, the summed threads fit a
/// `usize`; there is no other bound.
pub proof fn lemma_totals_fit_exactly(s: Seq<Rate>, count_threads: bool)
    ensures
        totals_fit(s, count_threads) <==> {
            &&& sum_field(s, Field::Bytes) <= u64::MAX
            &&& sum_field(s, Field::Nanos) <= (u64::MAX as int) * 1_000_000_000 + 999_999_999
            &&& count_threads ==> sum_field(s, Field::Threads) <= usize::MAX
        },
{
}

/// Sums add up over measurements: nothing sums to nothing, one measurement
/// to its own value, and two lists one after the other to the sum of their
/// sums.
pub proof fn lemma_sum_field_adds_up(a: Seq<Rate>, b: Seq<Rate>, r: Rate, f: Field)
    ensures
        sum_field(Seq::empty(), f) == 0,
        sum_field(seq![r], f) == field_of(r, f),
        sum_field(a + b, f) == sum_field(a, f) + sum_field(b, f),
    decreases b.len(),
{
    assert(seq![r].drop_last() =~= Seq::<Rate>::empty());
    assert(seq![r].last() == r);
    assert(sum_field(seq![r].drop_last(), f) == 0);
    if b.len() == 0 {
        assert(a + b =~= a);
    } else {
        lemma_sum_field_adds_up(a, b.drop_last(), r, f);
        assert((a + b).drop_last() =~= a + b.drop_last());
        assert((a + b).last() == b.last());
    }
}


/// Group sums add up over measurements: one measurement adds its value to
/// its own group only, and two lists one after the other give the sum of
/// their group sums.
pub proof fn lemma_group_sum_adds_up(a: Seq<Rate>, b: Seq<Rate>, r: Rate, by_stream: bool, k: Key, f: Field)
    ensures
        group_sum(Seq::empty(), by_stream, k, f) == 0,
        group_sum(seq![r], by_stream, k, f) == if key_of(r, by_stream) == k {
            field_of(r, f)
        } else {
            0
        },
        group_sum(a + b, by_stream, k, f) == group_sum(a, by_stream, k, f) + group_sum(
            b,
            by_stream,
            k,
            f,
        ),
    decreases b.len(),
{
    assert(seq![r].drop_last() =~= Seq::<Rate>::empty());
    assert(seq![r].last() == r);
    assert(group_sum(seq![r].drop_last(), by_stream, k, f) == 0);
    if b.len() == 0 {
        assert(a + b =~= a);
    } else {
        lemma_group_sum_adds_up(a, b.drop_last(), r, by_stream, k, f);
        assert((a + b).drop_last() =~= a + b.drop_last());
        assert((a + b).last() == b.last());
    }
}

/// The thread count kept for a stream is that of its last measurement: of
/// the measurement of that stream with no later one of the same stream; a
/// stream that no measurement belongs to has none.
pub proof fn lemma_last_threads_is_last(s: Seq<Rate>, k: Key)
    ensures
        forall|i: int|
            0 <= i < s.len() && key_of(s[i], true) == k && (forall|j: int|
                i < j < s.len() ==> key_of(#[trigger] s[j], true) != k) ==> last_threads(s, k)
                == (#[trigger] s[i]).threads,
        (forall|i: int| 0 <= i < s.len() ==> key_of(#[trigger] s[i], true) != k) ==> last_threads(
            s,
            k,
        ) == 0,
    decreases s.len(),
{
    if s.len() > 0 {
        let t = s.drop_last();
        lemma_last_threads_is_last(t, k);
        assert forall|i: int|
            0 <= i < s.len() && key_of(s[i], true) == k && (forall|j: int|
                i < j < s.len() ==> key_of(#[trigger] s[j], true) != k) implies last_threads(s, k)
            == (#[trigger] s[i]).threads by {
            if i < s.len() - 1 {
                assert(key_of(s[s.len() - 1], true) != k);
                assert(t[i] == s[i]);
                assert forall|j: int| i < j < t.len() implies key_of(#[trigger] t[j], true) != k by {
                    assert(t[j] == s[j]);
                }
            }
        }
        if forall|i: int| 0 <= i < s.len() ==> key_of(#[trigger] s[i], true) != k {
            assert(key_of(s[s.len() - 1], true) != k);
            assert forall|i: int| 0 <= i < t.len() implies key_of(#[trigger] t[i], true) != k by {
                assert(t[i] == s[i]);
            }
        }
    }
}

} // verus!
