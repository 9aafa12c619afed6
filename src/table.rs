//! The solved table: records `(state, move, value)` sorted by state, their
//! fixed-width byte form, and lookup by binary search.

use vstd::arithmetic::div_mod::lemma_breakdown;
use vstd::prelude::*;

verus! {

/// `a` comes before `b` in the order of tuples: by state, then move, then value.
pub open spec fn rec_lt(a: (u64, i8, i8), b: (u64, i8, i8)) -> bool {
    ||| a.0 < b.0
    ||| a.0 == b.0 && a.1 < b.1
    ||| a.0 == b.0 && a.1 == b.1 && a.2 < b.2
}

/// Sorted in ascending order of tuples, equal records side by side.
pub open spec fn sorted_recs(s: Seq<(u64, i8, i8)>) -> bool {
    forall|i: int, j: int| 0 <= i < j < s.len() ==> !rec_lt(#[trigger] s[j], #[trigger] s[i])
}

/// Strictly ascending: sorted, with no record twice.
pub open spec fn strictly_sorted(s: Seq<(u64, i8, i8)>) -> bool {
    forall|i: int, j: int| 0 <= i < j < s.len() ==> rec_lt(#[trigger] s[i], #[trigger] s[j])
}

/// `out` is the table built from `input`: its records, each once, in
/// ascending order.
pub open spec fn built_from(input: Seq<(u64, i8, i8)>, out: Seq<(u64, i8, i8)>) -> bool {
    &&& strictly_sorted(out)
    &&& forall|x: (u64, i8, i8)| #[trigger] out.contains(x) <==> input.contains(x)
}

/// Relies on `slice::sort_unstable`: it puts the records in ascending order
/// of `Ord` for tuples, which compares field by field, keeping each record.
#[verifier::external_body]
fn sort_records(v: &mut Vec<(u64, i8, i8)>)
    ensures
        final(v)@.to_multiset() == old(v)@.to_multiset(),
        sorted_recs(final(v)@),
{
    v.sort_unstable();
}

/// Sorts the records and drops repeated ones, giving the solved table.
pub fn build(records: Vec<(u64, i8, i8)>) -> (r: Vec<(u64, i8, i8)>)
    ensures
        built_from(records@, r@),
{
    let mut v = records;
    sort_records(&mut v);
    proof {
        records@.to_multiset_ensures();
        v@.to_multiset_ensures();
        assert forall|x: (u64, i8, i8)| v@.contains(x) <==> records@.contains(x) by {
            assert(v@.contains(x) <==> v@.to_multiset().count(x) > 0);
            assert(records@.contains(x) <==> records@.to_multiset().count(x) > 0);
        }
    }
    let mut out: Vec<(u64, i8, i8)> = Vec::new();
    let mut i: usize = 0;
    while i < v.len()
        invariant
            i <= v@.len(),
            sorted_recs(v@),
            strictly_sorted(out@),
            i > 0 ==> out@.len() > 0 && out@.last() == v@[i - 1],
            i == 0 ==> out@.len() == 0,
            forall|k: int| 0 <= k < i ==> out@.contains(#[trigger] v@[k]),
            forall|x: (u64, i8, i8)| #[trigger] out@.contains(x) ==> v@.contains(x),
        decreases v@.len() - i,
    {
        let x = v[i];
        let fresh = if out.len() == 0 {
            true
        } else {
            let last = out[out.len() - 1];
            !(last.0 == x.0 && last.1 == x.1 && last.2 == x.2)
        };
        if fresh {
            let ghost before = out@;
            proof {
                if i > 0 {
                    assert(!rec_lt(v@[i as int], v@[i - 1]));
                }
            }
            out.push(x);
            proof {
                assert(out@[out@.len() - 1] == x);
                assert forall|k: int| 0 <= k < i + 1 implies out@.contains(#[trigger] v@[k]) by {
                    if k < i {
                        let w = choose|w: int| 0 <= w < before.len() && before[w] == v@[k];
                        assert(out@[w] == v@[k]);
                    }
                }
                assert forall|y: (u64, i8, i8)| #[trigger] out@.contains(y) implies v@.contains(y) by {
                    let w = choose|w: int| 0 <= w < out@.len() && out@[w] == y;
                    if w < before.len() {
                        assert(before[w] == y);
                        assert(before.contains(y));
                    } else {
                        assert(v@[i as int] == y);
                    }
                }
                assert forall|a: int, b: int| 0 <= a < b < out@.len() implies rec_lt(
                    #[trigger] out@[a],
                    #[trigger] out@[b],
                ) by {
                    if b == out@.len() - 1 {
                        assert(before.len() > 0);
                        assert(i > 0);
                        let l = before[before.len() - 1];
                        assert(l == v@[i - 1]);
                        assert(!rec_lt(x, l));
                        assert(x != l);
                        assert(rec_lt(l, x));
                        if a < b - 1 {
                            assert(rec_lt(before[a], l));
                        }
                    } else {
                        assert(out@[a] == before[a] && out@[b] == before[b]);
                    }
                }
            }
        } else {
            proof {
                assert(out@[out@.len() - 1] == x);
            }
        }
        i = i + 1;
    }
    proof {
        assert forall|x: (u64, i8, i8)| #[trigger] out@.contains(x) <==> records@.contains(x) by {
            if v@.contains(x) {
                let k = choose|k: int| 0 <= k < v@.len() && v@[k] == x;
                assert(out@.contains(v@[k]));
            }
        }
    }
    out
}

/// Two strictly sorted sequences with the same records are equal.
proof fn lemma_strictly_sorted_unique(a: Seq<(u64, i8, i8)>, b: Seq<(u64, i8, i8)>)
    requires
        strictly_sorted(a),
        strictly_sorted(b),
        forall|x: (u64, i8, i8)| #[trigger] a.contains(x) <==> b.contains(x),
    ensures
        a == b,
    decreases a.len(),
{
    if a.len() == 0 || b.len() == 0 {
        if b.len() > 0 {
            assert(b.contains(b[0]));
            assert(a.contains(b[0]));
        }
        if a.len() > 0 {
            assert(a.contains(a[0]));
        }
        assert(a =~= b);
    } else {
        let x = a.last();
        let y = b.last();
        assert(a.contains(x));
        assert(b.contains(y));
        assert(a.contains(y));
        if x != y {
            let ix = choose|i: int| 0 <= i < b.len() && b[i] == x;
            let iy = choose|i: int| 0 <= i < a.len() && a[i] == y;
            assert(ix != b.len() - 1);
            assert(iy != a.len() - 1);
            assert(rec_lt(b[ix], b[b.len() - 1]));
            assert(rec_lt(a[iy], a[a.len() - 1]));
            assert(false);
        }
        let a1 = a.drop_last();
        let b1 = b.drop_last();
        assert forall|z: (u64, i8, i8)| #[trigger] a1.contains(z) <==> b1.contains(z) by {
            if a1.contains(z) {
                let i = choose|i: int| 0 <= i < a1.len() && a1[i] == z;
                assert(rec_lt(a[i], a[a.len() - 1]));
                assert(a[i] == z);
                assert(a.contains(z));
                assert(b.contains(z));
                let j = choose|j: int| 0 <= j < b.len() && b[j] == z;
                if j == b.len() - 1 {
                    assert(false);
                }
                assert(b1[j] == z);
            }
            if b1.contains(z) {
                let i = choose|i: int| 0 <= i < b1.len() && b1[i] == z;
                assert(rec_lt(b[i], b[b.len() - 1]));
                assert(b[i] == z);
                assert(b.contains(z));
                assert(a.contains(z));
                let j = choose|j: int| 0 <= j < a.len() && a[j] == z;
                if j == a.len() - 1 {
                    assert(false);
                }
                assert(a1[j] == z);
            }
        }
        lemma_strictly_sorted_unique(a1, b1);
        assert(a =~= a1.push(x));
        assert(b =~= b1.push(y));
    }
}

/// Rebuilding the table from the same records, in any order and with any
/// repetition, gives the same table, byte for byte.
pub proof fn lemma_build_deterministic(
    in1: Seq<(u64, i8, i8)>,
    in2: Seq<(u64, i8, i8)>,
    out1: Seq<(u64, i8, i8)>,
    out2: Seq<(u64, i8, i8)>,
)
    requires
        forall|x: (u64, i8, i8)| #[trigger] in1.contains(x) <==> in2.contains(x),
        built_from(in1, out1),
        built_from(in2, out2),
    ensures
        out1 == out2,
        table_bytes(out1) == table_bytes(out2),
{
    assert forall|x: (u64, i8, i8)| #[trigger] out1.contains(x) <==> out2.contains(x) by {
        assert(out1.contains(x) <==> in1.contains(x));
        assert(out2.contains(x) <==> in2.contains(x));
    }
    lemma_strictly_sorted_unique(out1, out2);
}

/// Bytes taken by one record: the state in 8 bytes, least significant first,
/// then the move and the value, one signed byte each.
pub const RECORD_BYTES: usize = 10;

pub open spec fn pow256(k: nat) -> nat
    decreases k,
{
    if k == 0 {
        1
    } else {
        256 * pow256((k - 1) as nat)
    }
}

/// The number whose base-256 digits, least significant first, are `s`.
pub open spec fn le_value(s: Seq<u8>) -> nat
    decreases s.len(),
{
    if s.len() == 0 {
        0
    } else {
        (s[0] + 256 * le_value(s.drop_first())) as nat
    }
}

/// The low `k` base-256 digits of `n`, least significant first.
pub open spec fn le_bytes(n: nat, k: nat) -> Seq<u8>
    decreases k,
{
    if k == 0 {
        Seq::empty()
    } else {
        seq![(n % 256) as u8] + le_bytes(n / 256, (k - 1) as nat)
    }
}

/// The 10 bytes of one record.
pub open spec fn record_bytes(r: (u64, i8, i8)) -> Seq<u8> {
    le_bytes(r.0 as nat, 8) + seq![r.1 as u8, r.2 as u8]
}

/// The bytes of a table: its records one after the other.
pub open spec fn table_bytes(recs: Seq<(u64, i8, i8)>) -> Seq<u8>
    decreases recs.len(),
{
    if recs.len() == 0 {
        Seq::empty()
    } else {
        table_bytes(recs.drop_last()) + record_bytes(recs.last())
    }
}

/// The record that starts at byte `10 * i`.
pub open spec fn record_at(b: Seq<u8>, i: int) -> (u64, i8, i8) {
    (
        le_value(b.subrange(10 * i, 10 * i + 8)) as u64,
        b[10 * i + 8] as i8,
        b[10 * i + 9] as i8,
    )
}

/// The whole records held by `b`; bytes after the last whole record are not
/// part of any.
pub open spec fn records_of(b: Seq<u8>) -> Seq<(u64, i8, i8)> {
    Seq::new(b.len() / 10, |i: int| record_at(b, i))
}

/// Records in ascending order of state.
pub open spec fn keys_sorted(s: Seq<(u64, i8, i8)>) -> bool {
    forall|i: int, j: int| 0 <= i <= j < s.len() ==> (#[trigger] s[i]).0 <= (#[trigger] s[j]).0
}

proof fn lemma_le_value_bound(s: Seq<u8>)
    ensures
        le_value(s) < pow256(s.len()),
    decreases s.len(),
{
    if s.len() > 0 {
        lemma_le_value_bound(s.drop_first());
    }
}

proof fn lemma_le_bytes_len(n: nat, k: nat)
    ensures
        le_bytes(n, k).len() == k,
    decreases k,
{
    if k > 0 {
        lemma_le_bytes_len(n / 256, (k - 1) as nat);
    }
}

proof fn lemma_pow256_positive(k: nat)
    ensures
        pow256(k) >= 1,
    decreases k,
{
    if k > 0 {
        lemma_pow256_positive((k - 1) as nat);
    }
}

/// Reading back the low `k` base-256 digits of `n` gives `n` modulo `256^k`.
proof fn lemma_le_round_trip(n: nat, k: nat)
    ensures
        le_value(le_bytes(n, k)) == n % pow256(k),
    decreases k,
{
    if k > 0 {
        let t = le_bytes(n / 256, (k - 1) as nat);
        lemma_le_round_trip(n / 256, (k - 1) as nat);
        assert(le_bytes(n, k).drop_first() =~= t);
        lemma_pow256_positive((k - 1) as nat);
        lemma_breakdown(n as int, 256, pow256((k - 1) as nat) as int);
    }
}

/// Each record of a table is found back at its place in the table's bytes.
pub proof fn lemma_table_round_trip(recs: Seq<(u64, i8, i8)>)
    ensures
        table_bytes(recs).len() == 10 * recs.len(),
        records_of(table_bytes(recs)) == recs,
    decreases recs.len(),
{
    if recs.len() > 0 {
        let front = recs.drop_last();
        let r = recs.last();
        lemma_table_round_trip(front);
        lemma_le_bytes_len(r.0 as nat, 8);
        let b = table_bytes(recs);
        let bf = table_bytes(front);
        let rb = record_bytes(r);
        assert(b == bf + rb);
        assert forall|i: int| 0 <= i < recs.len() implies #[trigger] records_of(b)[i] == recs[i] by {
            if i < front.len() {
                assert(b.subrange(10 * i, 10 * i + 8) =~= bf.subrange(10 * i, 10 * i + 8));
                assert(b[10 * i + 8] == bf[10 * i + 8]);
                assert(b[10 * i + 9] == bf[10 * i + 9]);
                assert(records_of(bf)[i] == front[i]);
            } else {
                assert(b.subrange(10 * i, 10 * i + 8) =~= le_bytes(r.0 as nat, 8));
                lemma_le_round_trip(r.0 as nat, 8);
                assert(pow256(8) == 0x1_0000_0000_0000_0000) by {
                    reveal_with_fuel(pow256, 9);
                }
                let m = r.1;
                let o = r.2;
                assert(b[10 * i + 8] == m as u8);
                assert(b[10 * i + 9] == o as u8);
                assert((m as u8) as i8 == m) by (bit_vector);
                assert((o as u8) as i8 == o) by (bit_vector);
            }
        }
        assert(records_of(b) =~= recs);
    }
}

/// Appends the 8 bytes of `n`, least significant first.
fn push_u64_le(out: &mut Vec<u8>, n: u64)
    ensures
        final(out)@ == old(out)@ + le_bytes(n as nat, 8),
{
    let ghost start = old(out)@;
    let mut x: u64 = n;
    let mut k: usize = 0;
    proof {
        assert(n as nat / 1 == n as nat);
        assert(start + le_bytes(n as nat, 8) =~= out@ + le_bytes(x as nat, 8));
    }
    while k < 8
        invariant
            k <= 8,
            out@ + le_bytes(x as nat, (8 - k) as nat) == start + le_bytes(n as nat, 8),
        decreases 8 - k,
    {
        let ghost before = out@;
        out.push((x % 256) as u8);
        proof {
            let rest = le_bytes((x / 256) as nat, (8 - k - 1) as nat);
            assert(le_bytes(x as nat, (8 - k) as nat) == seq![(x as nat % 256) as u8] + rest);
            assert(out@ + rest =~= before + le_bytes(x as nat, (8 - k) as nat));
        }
        x = x / 256;
        k = k + 1;
    }
    proof {
        assert(out@ + le_bytes(x as nat, 0) =~= out@);
    }
}

/// The bytes of a table, ready to be stored.
pub fn encode_table(recs: &Vec<(u64, i8, i8)>) -> (r: Vec<u8>)
    ensures
        r@ == table_bytes(recs@),
        records_of(r@) == recs@,
{
    let mut out: Vec<u8> = Vec::new();
    let mut i: usize = 0;
    while i < recs.len()
        invariant
            i <= recs@.len(),
            out@ == table_bytes(recs@.take(i as int)),
        decreases recs@.len() - i,
    {
        let (n, mv, v) = recs[i];
        proof {
            assert(recs@.take(i + 1).drop_last() =~= recs@.take(i as int));
        }
        push_u64_le(&mut out, n);
        out.push(mv as u8);
        out.push(v as u8);
        proof {
            let t = recs@.take(i + 1);
            assert(t.last() == (n, mv, v));
            assert(out@ =~= table_bytes(t.drop_last()) + record_bytes(t.last()));
        }
        i = i + 1;
    }
    proof {
        assert(recs@.take(recs@.len() as int) =~= recs@);
        lemma_table_round_trip(recs@);
    }
    out
}

/// The state number stored in the 8 bytes at `off`, least significant first.
fn read_u64_le(b: &Vec<u8>, off: usize) -> (r: u64)
    requires
        off + 8 <= b@.len(),
    ensures
        r == le_value(b@.subrange(off as int, off + 8)),
{
    let ghost s = b@;
    let len = b.len();
    let mut acc: u64 = 0;
    let mut k: usize = 8;
    proof {
        assert(s.subrange(off + 8, off + 8) =~= Seq::<u8>::empty());
        assert(pow256(0) == 1);
    }
    while k > 0
        invariant
            k <= 8,
            off + 8 <= len,
            len == s.len(),
            s == b@,
            acc == le_value(s.subrange(off + k, off + 8)),
            acc < pow256((8 - k) as nat),
        decreases k,
    {
        k = k - 1;
        let byte = b[off + k];
        proof {
            let t = s.subrange(off + k, off + 8);
            assert(t.drop_first() =~= s.subrange(off + k + 1, off + 8));
            assert(t[0] == byte);
            assert(pow256((8 - k) as nat) == 256 * pow256((8 - k - 1) as nat));
            lemma_pow256_monotone((8 - k) as nat, 8);
            assert(pow256(8) == 0x1_0000_0000_0000_0000) by {
                reveal_with_fuel(pow256, 9);
            }
        }
        acc = acc * 256 + byte as u64;
    }
    acc
}

proof fn lemma_pow256_monotone(a: nat, b: nat)
    requires
        a <= b,
    ensures
        pow256(a) <= pow256(b),
    decreases b,
{
    if a < b {
        lemma_pow256_monotone(a, (b - 1) as nat);
    }
}

/// The bytes of a list of state numbers: 8 bytes each, least significant
/// first.
pub open spec fn states_bytes(v: Seq<u64>) -> Seq<u8>
    decreases v.len(),
{
    if v.len() == 0 {
        Seq::empty()
    } else {
        states_bytes(v.drop_last()) + le_bytes(v.last() as nat, 8)
    }
}

/// The state numbers held by the whole 8-byte groups of `b`.
pub open spec fn states_of(b: Seq<u8>) -> Seq<u64> {
    Seq::new(b.len() / 8, |i: int| le_value(b.subrange(8 * i, 8 * i + 8)) as u64)
}

/// Reading back the bytes of a list of state numbers gives the list.
pub proof fn lemma_states_round_trip(v: Seq<u64>)
    ensures
        states_bytes(v).len() == 8 * v.len(),
        states_of(states_bytes(v)) == v,
    decreases v.len(),
{
    if v.len() > 0 {
        let front = v.drop_last();
        let n = v.last();
        lemma_states_round_trip(front);
        lemma_le_bytes_len(n as nat, 8);
        let b = states_bytes(v);
        let bf = states_bytes(front);
        assert forall|i: int| 0 <= i < v.len() implies #[trigger] states_of(b)[i] == v[i] by {
            if i < front.len() {
                assert(b.subrange(8 * i, 8 * i + 8) =~= bf.subrange(8 * i, 8 * i + 8));
                assert(states_of(bf)[i] == front[i]);
            } else {
                assert(b.subrange(8 * i, 8 * i + 8) =~= le_bytes(n as nat, 8));
                lemma_le_round_trip(n as nat, 8);
                assert(pow256(8) == 0x1_0000_0000_0000_0000) by {
                    reveal_with_fuel(pow256, 9);
                }
            }
        }
        assert(states_of(b) =~= v);
    }
}

/// The bytes of a list of state numbers, ready to be stored.
pub fn encode_states(states: &Vec<u64>) -> (r: Vec<u8>)
    ensures
        r@ == states_bytes(states@),
        states_of(r@) == states@,
{
    let mut out: Vec<u8> = Vec::new();
    let mut i: usize = 0;
    while i < states.len()
        invariant
            i <= states@.len(),
            out@ == states_bytes(states@.take(i as int)),
        decreases states@.len() - i,
    {
        proof {
            assert(states@.take(i + 1).drop_last() =~= states@.take(i as int));
        }
        push_u64_le(&mut out, states[i]);
        i = i + 1;
    }
    proof {
        assert(states@.take(states@.len() as int) =~= states@);
        lemma_states_round_trip(states@);
    }
    out
}

/// The state numbers stored in `bytes`; bytes after the last whole group of
/// 8 are not read.
pub fn decode_states(bytes: &Vec<u8>) -> (r: Vec<u64>)
    ensures
        r@ == states_of(bytes@),
{
    let len = bytes.len();
    let count = len / 8;
    let mut out: Vec<u64> = Vec::new();
    let mut i: usize = 0;
    while i < count
        invariant
            i <= count,
            count == len / 8,
            len == bytes@.len(),
            out@.len() == i,
            forall|k: int| 0 <= k < i ==> #[trigger] out@[k] == states_of(bytes@)[k],
        decreases count - i,
    {
        proof {
            assert(i * 8 + 8 <= len) by (nonlinear_arith)
                requires
                    i < count,
                    count == len / 8,
            ;
        }
        let n = read_u64_le(bytes, i * 8);
        proof {
            lemma_le_value_bound(bytes@.subrange(i * 8, i * 8 + 8));
            assert(pow256(8) == 0x1_0000_0000_0000_0000) by {
                reveal_with_fuel(pow256, 9);
            }
        }
        out.push(n);
        i = i + 1;
    }
    proof {
        assert(out@ =~= states_of(bytes@));
    }
    out
}

/// Looks up a state in the bytes of a solved table by binary search: its
/// move and value, or `None`. A record found is always in the table; when the
/// table is sorted by state, `None` means that no record has this state.
pub fn get_best_move(table: &Vec<u8>, state_num: u64) -> (r: Option<(i8, i8)>)
    ensures
        r matches Some((mv, v)) ==> records_of(table@).contains((state_num, mv, v)),
        keys_sorted(records_of(table@)) ==> (r is Some <==> exists|i: int|
            0 <= i < records_of(table@).len() && (#[trigger] records_of(table@)[i]).0 == state_num),
{
    let ghost recs = records_of(table@);
    let len = table.len();
    let count = len / RECORD_BYTES;
    let mut low: usize = 0;
    let mut high: usize = count;
    while low < high
        invariant
            recs == records_of(table@),
            count == recs.len(),
            count == table@.len() / 10,
            len == table@.len(),
            low <= high <= count,
            keys_sorted(recs) ==> forall|i: int| 0 <= i < low ==> (#[trigger] recs[i]).0 < state_num,
            keys_sorted(recs) ==> forall|i: int|
                high <= i < count ==> (#[trigger] recs[i]).0 > state_num,
        decreases high - low,
    {
        let mid = low + (high - low) / 2;
        proof {
            assert(mid * 10 + 10 <= table@.len()) by (nonlinear_arith)
                requires
                    mid < count,
                    count == table@.len() / 10,
            len == table@.len(),
            ;
        }
        let found = read_u64_le(table, mid * RECORD_BYTES);
        proof {
            assert(recs[mid as int] == record_at(table@, mid as int));
            lemma_le_value_bound(table@.subrange(mid * 10, mid * 10 + 8));
            assert(pow256(8) == 0x1_0000_0000_0000_0000) by {
                reveal_with_fuel(pow256, 9);
            }
        }
        if found == state_num {
            let mv = table[mid * RECORD_BYTES + 8] as i8;
            let v = table[mid * RECORD_BYTES + 9] as i8;
            proof {
                assert(recs[mid as int] == (state_num, mv, v));
            }
            return Some((mv, v));
        } else if found > state_num {
            high = mid;
        } else {
            low = mid + 1;
        }
    }
    None
}

} // verus!
