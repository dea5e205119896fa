//! Little-endian byte serialization for the values the kernel copies into a
//! caller's address space: machine words and the syscall-counter table.

use vstd::prelude::*;

verus! {

/// The `n` little-endian bytes of `v`: byte `i` is `(v / 256^i) % 256`.
pub open spec fn le_bytes_of(v: nat, n: nat) -> Seq<u8>
    decreases n,
{
    if n == 0 {
        Seq::empty()
    } else {
        seq![(v % 256) as u8] + le_bytes_of(v / 256, (n - 1) as nat)
    }
}

pub proof fn lemma_le_bytes_len(v: nat, n: nat)
    ensures
        le_bytes_of(v, n).len() == n,
    decreases n,
{
    if n > 0 {
        lemma_le_bytes_len(v / 256, (n - 1) as nat);
    }
}

/// The little-endian bytes of a machine word, lowest byte first.
///
/// Eight bytes always come back, so the user-visible word layout does not
/// depend on the pointer width the kernel happens to be built for.
pub fn usize_to_u8_array(value: usize) -> (r: Vec<u8>)
    ensures
        r@ == le_bytes_of(value as nat, 8),
        r@.len() == 8,
{
    let mut bytes: Vec<u8> = Vec::new();
    let mut v: usize = value;
    let mut i: usize = 0;
    while i < 8
        invariant
            i <= 8,
            bytes@.len() == i,
            le_bytes_of(value as nat, 8) == bytes@ + le_bytes_of(v as nat, (8 - i) as nat),
        decreases 8 - i,
    {
        let b: u8 = (v % 256) as u8;
        proof {
            assert(le_bytes_of(v as nat, (8 - i) as nat) == seq![b] + le_bytes_of(
                (v / 256) as nat,
                (8 - (i + 1)) as nat,
            ));
            assert(bytes@ + le_bytes_of(v as nat, (8 - i) as nat) == (bytes@ + seq![b])
                + le_bytes_of((v / 256) as nat, (8 - (i + 1)) as nat));
        }
        bytes.push(b);
        v = v / 256;
        i = i + 1;
    }
    proof {
        lemma_le_bytes_len(v as nat, 0);
        assert(le_bytes_of(value as nat, 8) == bytes@ + Seq::<u8>::empty());
        assert(bytes@ + Seq::<u8>::empty() == bytes@);
    }
    bytes
}

/// The syscall-counter table serialized entry by entry, each counter as four
/// little-endian bytes.
pub open spec fn counters_bytes(s: Seq<u32>) -> Seq<u8>
    decreases s.len(),
{
    if s.len() == 0 {
        Seq::empty()
    } else {
        le_bytes_of(s[0] as nat, 4) + counters_bytes(s.drop_first())
    }
}

pub proof fn lemma_counters_bytes_len(s: Seq<u32>)
    ensures
        counters_bytes(s).len() == 4 * s.len(),
    decreases s.len(),
{
    if s.len() > 0 {
        lemma_le_bytes_len(s[0] as nat, 4);
        lemma_counters_bytes_len(s.drop_first());
    }
}

pub proof fn lemma_counters_bytes_push(s: Seq<u32>, x: u32)
    ensures
        counters_bytes(s.push(x)) == counters_bytes(s) + le_bytes_of(x as nat, 4),
    decreases s.len(),
{
    if s.len() == 0 {
        assert(s.push(x).drop_first() =~= Seq::<u32>::empty());
        assert(s.push(x)[0] == x);
        assert(counters_bytes(s.push(x)) == le_bytes_of(x as nat, 4) + counters_bytes(
            Seq::<u32>::empty(),
        ));
        assert(le_bytes_of(x as nat, 4) + Seq::<u8>::empty() =~= le_bytes_of(x as nat, 4));
        assert(counters_bytes(s) + le_bytes_of(x as nat, 4) =~= le_bytes_of(x as nat, 4));
    } else {
        assert(s.push(x).drop_first() =~= s.drop_first().push(x));
        assert(s.push(x)[0] == s[0]);
        lemma_counters_bytes_push(s.drop_first(), x);
        assert(counters_bytes(s.push(x)) == le_bytes_of(s[0] as nat, 4) + (counters_bytes(
            s.drop_first(),
        ) + le_bytes_of(x as nat, 4)));
        assert(le_bytes_of(s[0] as nat, 4) + (counters_bytes(s.drop_first()) + le_bytes_of(
            x as nat,
            4,
        )) =~= (le_bytes_of(s[0] as nat, 4) + counters_bytes(s.drop_first())) + le_bytes_of(
            x as nat,
            4,
        ));
    }
}

/// Serializes each counter as four little-endian bytes, in table order.
pub fn counters_to_bytes(counters: &Vec<u32>) -> (r: Vec<u8>)
    ensures
        r@ == counters_bytes(counters@),
        r@.len() == 4 * counters@.len(),
{
    let mut out: Vec<u8> = Vec::new();
    let mut i: usize = 0;
    while i < counters.len()
        invariant
            i <= counters@.len(),
            out@ == counters_bytes(counters@.take(i as int)),
        decreases counters@.len() - i,
    {
        let c: u32 = counters[i];
        let mut v: u32 = c;
        let mut k: usize = 0;
        while k < 4
            invariant
                k <= 4,
                out@.len() >= 0,
                out@ == counters_bytes(counters@.take(i as int)) + le_bytes_of(
                    c as nat,
                    4,
                ).take(k as int),
                le_bytes_of(c as nat, 4) == le_bytes_of(c as nat, 4).take(k as int) + le_bytes_of(
                    v as nat,
                    (4 - k) as nat,
                ),
            decreases 4 - k,
        {
            let b: u8 = (v % 256) as u8;
            proof {
                assert(le_bytes_of(v as nat, (4 - k) as nat) == seq![b] + le_bytes_of(
                    (v / 256) as nat,
                    (4 - (k + 1)) as nat,
                ));
                lemma_le_bytes_len(c as nat, 4);
                assert(le_bytes_of(c as nat, 4).take((k + 1) as int) =~= le_bytes_of(
                    c as nat,
                    4,
                ).take(k as int) + seq![le_bytes_of(c as nat, 4)[k as int]]);
                assert(le_bytes_of(c as nat, 4)[k as int] == b);
                assert(le_bytes_of(c as nat, 4) == le_bytes_of(c as nat, 4).take((k + 1) as int)
                    + le_bytes_of((v / 256) as nat, (4 - (k + 1)) as nat));
            }
            out.push(b);
            v = v / 256;
            k = k + 1;
        }
        proof {
            assert(le_bytes_of(c as nat, 4).take(4) =~= le_bytes_of(c as nat, 4)) by {
                lemma_le_bytes_len(c as nat, 4);
            }
            assert(counters@.take(i as int).push(c) =~= counters@.take((i + 1) as int));
            lemma_counters_bytes_push(counters@.take(i as int), c);
        }
        i = i + 1;
    }
    proof {
        assert(counters@.take(counters@.len() as int) =~= counters@);
        lemma_counters_bytes_len(counters@);
    }
    out
}

} // verus!
