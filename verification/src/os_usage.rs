//! Summaries of the operating system's usage that the library reports
//! alongside its own metrics.
use vstd::prelude::*;
use crate::welford::{lemma_signed_cast, signed_of, wrap_add, wrapped_sum};

verus! {

proof fn lemma_wrapped_sum_push(acc: i64, xs: Seq<u64>, x: u64)
    ensures
        wrapped_sum(acc, xs.push(x)) == wrap_add(wrapped_sum(acc, xs), signed_of(x) as i64),
    decreases xs.len(),
{
    if xs.len() > 0 {
        assert(xs.push(x)[0] == xs[0]);
        assert(xs.push(x).drop_first() =~= xs.drop_first().push(x));
        lemma_wrapped_sum_push(wrap_add(acc, signed_of(xs[0]) as i64), xs.drop_first(), x);
    } else {
        assert(xs.push(x)[0] == x);
        assert(xs.push(x).drop_first() =~= Seq::<u64>::empty());
        assert(wrapped_sum(acc, xs) == acc);
        let a2 = wrap_add(acc, signed_of(x) as i64);
        assert(wrapped_sum(a2, Seq::<u64>::empty()) == a2);
    }
}

/// The byte counts of every network interface, added up. Each entry holds
/// the bytes an interface received and transmitted; the first total adds up
/// the received bytes and the second the transmitted ones, each byte count
/// taken as an `i64` and the sums wrapping.
pub fn network_totals(interfaces: &Vec<(u64, u64)>) -> (r: (i64, i64))
    ensures
        r.0 == wrapped_sum(0, interfaces@.map_values(|p: (u64, u64)| p.0)),
        r.1 == wrapped_sum(0, interfaces@.map_values(|p: (u64, u64)| p.1)),
{
    let mut tx_speed: i64 = 0;
    let mut rx_speed: i64 = 0;
    let n = interfaces.len();
    let mut i: usize = 0;
    while i < n
        invariant
            n == interfaces@.len(),
            i <= n,
            tx_speed == wrapped_sum(0, interfaces@.take(i as int).map_values(|p: (u64, u64)| p.0)),
            rx_speed == wrapped_sum(0, interfaces@.take(i as int).map_values(|p: (u64, u64)| p.1)),
        decreases n - i,
    {
        let (received_bytes, transmitted_bytes) = interfaces[i];
        proof {
            let t = interfaces@.take(i as int);
            let t1 = interfaces@.take(i + 1);
            assert(t1.map_values(|p: (u64, u64)| p.0) =~= t.map_values(|p: (u64, u64)| p.0).push(received_bytes));
            assert(t1.map_values(|p: (u64, u64)| p.1) =~= t.map_values(|p: (u64, u64)| p.1).push(transmitted_bytes));
            lemma_wrapped_sum_push(0, t.map_values(|p: (u64, u64)| p.0), received_bytes);
            lemma_wrapped_sum_push(0, t.map_values(|p: (u64, u64)| p.1), transmitted_bytes);
            lemma_signed_cast(received_bytes);
            lemma_signed_cast(transmitted_bytes);
        }
        tx_speed = tx_speed.wrapping_add(received_bytes as i64);
        rx_speed = rx_speed.wrapping_add(transmitted_bytes as i64);
        i = i + 1;
    }
    assert(interfaces@.take(n as int) =~= interfaces@);
    (tx_speed, rx_speed)
}

} // verus!
