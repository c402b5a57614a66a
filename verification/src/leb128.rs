//! Unsigned LEB128: seven data bits per byte, least significant group first,
//! the high bit of a byte set when another group follows.

use vstd::prelude::*;

verus! {

/// Why a variable-length integer could not be read.
#[derive(Clone, Copy, Debug, PartialEq, Eq, Structural)]
pub enum LebError {
    /// The buffer ended before a byte without the continuation bit was seen.
    Truncated,
    /// The encoding carries more than 64 bits of value.
    Oversized,
}

/// The largest number of bytes an encoding of a 64-bit value may use.
pub const MAX_LEB_BYTES: usize = 10;

/// Exclusive upper bound of the values that an encoding of at most `budget`
/// bytes can denote, when the last permitted byte may only hold one bit.
pub open spec fn leb_limit(budget: nat) -> nat
    decreases budget,
{
    if budget <= 1 {
        2
    } else {
        128 * leb_limit((budget - 1) as nat)
    }
}

/// Reads the groups that start at `pos` when at most `budget` bytes may still
/// be used. On success the result is the value and the number of bytes read.
///
/// Any encoding is accepted, padded ones included, as long as it ends inside
/// the buffer and inside the budget, and the last permitted byte holds no more
/// than the one bit that a 64-bit value has left.
pub open spec fn leb_read(s: Seq<u8>, pos: int, budget: nat) -> Result<(nat, nat), LebError>
    decreases budget,
{
    if pos < 0 || pos >= s.len() {
        Err(LebError::Truncated)
    } else if budget <= 1 {
        if s[pos] <= 1 {
            Ok((s[pos] as nat, 1nat))
        } else {
            Err(LebError::Oversized)
        }
    } else if s[pos] < 128 {
        Ok((s[pos] as nat, 1nat))
    } else {
        match leb_read(s, pos + 1, (budget - 1) as nat) {
            Ok((v, n)) => Ok((((s[pos] - 128) + 128 * v) as nat, n + 1)),
            Err(e) => Err(e),
        }
    }
}

/// The unsigned 64-bit integer encoded at `pos`, with the length of its encoding.
pub open spec fn leb_decode(s: Seq<u8>, pos: int) -> Result<(nat, nat), LebError> {
    leb_read(s, pos, 10)
}

/// The minimal encoding of `v`: no group beyond the last non-zero one.
pub open spec fn leb_encode(v: nat) -> Seq<u8>
    decreases v,
{
    if v < 128 {
        seq![v as u8]
    } else {
        seq![(v % 128 + 128) as u8] + leb_encode(v / 128)
    }
}

/// `piece` stands in `s` at `pos`.
pub open spec fn occurs_at(s: Seq<u8>, pos: int, piece: Seq<u8>) -> bool {
    &&& 0 <= pos
    &&& pos + piece.len() <= s.len()
    &&& s.subrange(pos, pos + piece.len()) == piece
}

/// The limits of the budgets from one byte to ten.
pub proof fn lemma_leb_limit_values()
    ensures
        leb_limit(1) == 2,
        leb_limit(2) == 0x100,
        leb_limit(3) == 0x8000,
        leb_limit(4) == 0x40_0000,
        leb_limit(5) == 0x2000_0000,
        leb_limit(6) == 0x10_0000_0000,
        leb_limit(7) == 0x800_0000_0000,
        leb_limit(8) == 0x4_0000_0000_0000,
        leb_limit(9) == 0x200_0000_0000_0000,
        leb_limit(10) == 0x1_0000_0000_0000_0000,
{
    reveal_with_fuel(leb_limit, 11);
}

/// A value that was read lies under the limit of its budget and its encoding
/// lies inside the buffer.
pub proof fn lemma_leb_read_bounds(s: Seq<u8>, pos: int, budget: nat)
    ensures
        leb_read(s, pos, budget) matches Ok((v, n)) ==> {
            &&& v < leb_limit(budget)
            &&& 1 <= n
            &&& n <= budget || n == 1
            &&& 0 <= pos
            &&& pos + n <= s.len()
        },
    decreases budget,
{
    if pos < 0 || pos >= s.len() {
    } else if budget <= 1 {
    } else if s[pos] < 128 {
        assert(leb_limit(budget) >= 128) by {
            lemma_leb_limit_grows((budget - 1) as nat);
        }
    } else {
        lemma_leb_read_bounds(s, pos + 1, (budget - 1) as nat);
    }
}

proof fn lemma_leb_limit_grows(budget: nat)
    ensures
        leb_limit(budget) >= 2,
    decreases budget,
{
    if budget > 1 {
        lemma_leb_limit_grows((budget - 1) as nat);
    }
}

/// Every value read by `leb_decode` fits in 64 bits and used at most ten bytes.
pub proof fn lemma_leb_decode_bounds(s: Seq<u8>, pos: int)
    ensures
        leb_decode(s, pos) matches Ok((v, n)) ==> {
            &&& v <= u64::MAX
            &&& 1 <= n <= 10
            &&& 0 <= pos
            &&& pos + n <= s.len()
        },
{
    lemma_leb_read_bounds(s, pos, 10);
    lemma_leb_limit_values();
}

/// The minimal encoding of a value is never empty, and that of a 64-bit value
/// has at most ten bytes.
pub proof fn lemma_leb_encode_len(v: nat, budget: nat)
    requires
        budget >= 1,
        v < leb_limit(budget),
    ensures
        1 <= leb_encode(v).len() <= budget,
    decreases v,
{
    if v >= 128 {
        if budget == 1 {
        } else {
            lemma_leb_encode_len(v / 128, (budget - 1) as nat);
        }
    }
}

/// Reading where the minimal encoding of `v` stands gives `v` back, whatever
/// follows it.
pub proof fn lemma_leb_read_encode(s: Seq<u8>, pos: int, v: nat, budget: nat)
    requires
        budget >= 1,
        v < leb_limit(budget),
        occurs_at(s, pos, leb_encode(v)),
    ensures
        leb_read(s, pos, budget) == Ok::<(nat, nat), LebError>((v, leb_encode(v).len())),
    decreases v,
{
    let e = leb_encode(v);
    assert(s[pos] == s.subrange(pos, pos + e.len())[0]);
    if v < 128 {
    } else {
        let rest = leb_encode(v / 128);
        assert(budget >= 2);
        assert(e.subrange(1, e.len() as int) =~= rest);
        assert(s.subrange(pos + 1, pos + 1 + rest.len()) =~= s.subrange(pos, pos + e.len()).subrange(
            1,
            e.len() as int,
        ));
        lemma_leb_read_encode(s, pos + 1, v / 128, (budget - 1) as nat);
    }
}

/// Decoding the minimal encoding of a 64-bit value gives the value back.
pub proof fn lemma_leb_round_trip(s: Seq<u8>, pos: int, v: nat)
    requires
        v <= u64::MAX,
        occurs_at(s, pos, leb_encode(v)),
    ensures
        leb_decode(s, pos) == Ok::<(nat, nat), LebError>((v, leb_encode(v).len())),
        leb_encode(v).len() <= 10,
{
    lemma_leb_limit_values();
    lemma_leb_read_encode(s, pos, v, 10);
    lemma_leb_encode_len(v, 10);
}

/// No encoding of a value is shorter than the one `leb_encode` gives.
pub proof fn lemma_leb_encode_minimal(s: Seq<u8>, pos: int, budget: nat)
    ensures
        leb_read(s, pos, budget) matches Ok((v, n)) ==> leb_encode(v).len() <= n,
    decreases budget,
{
    if pos < 0 || pos >= s.len() {
    } else if budget <= 1 {
    } else if s[pos] < 128 {
    } else {
        lemma_leb_encode_minimal(s, pos + 1, (budget - 1) as nat);
        match leb_read(s, pos + 1, (budget - 1) as nat) {
            Ok((v, n)) => {
                let w = ((s[pos] - 128) + 128 * v) as nat;
                if w >= 128 {
                    assert(w / 128 == v);
                } else {
                    assert(v == 0);
                }
            },
            Err(_) => {},
        }
    }
}

/// The last byte of a minimal encoding is zero only for the value zero: the
/// encoder emits no padding group.
pub proof fn lemma_leb_encode_no_padding(v: nat)
    ensures
        leb_encode(v).last() < 128,
        v != 0 ==> leb_encode(v).last() != 0,
    decreases v,
{
    if v >= 128 {
        lemma_leb_encode_no_padding(v / 128);
        let rest = leb_encode(v / 128);
        assert(leb_encode(v).last() == rest.last());
    }
}

/// An integer that was read from as many bytes as its minimal encoding has
/// was read from its minimal encoding.
pub proof fn lemma_leb_shortest_is_minimal(s: Seq<u8>, pos: int, budget: nat)
    ensures
        leb_read(s, pos, budget) matches Ok((v, n)) ==> (n == leb_encode(v).len() ==> occurs_at(
            s,
            pos,
            leb_encode(v),
        )),
    decreases budget,
{
    lemma_leb_read_bounds(s, pos, budget);
    if pos < 0 || pos >= s.len() {
    } else if budget <= 1 || s[pos] < 128 {
        assert(s.subrange(pos, pos + 1) =~= seq![s[pos]]);
    } else {
        lemma_leb_shortest_is_minimal(s, pos + 1, (budget - 1) as nat);
        lemma_leb_read_bounds(s, pos + 1, (budget - 1) as nat);
        match leb_read(s, pos + 1, (budget - 1) as nat) {
            Ok((v, n)) => {
                let w = ((s[pos] - 128) + 128 * v) as nat;
                if w >= 128 {
                    assert(w / 128 == v && w % 128 == s[pos] - 128);
                    if n + 1 == leb_encode(w).len() {
                        assert(s.subrange(pos, pos + n + 1) =~= seq![s[pos]] + s.subrange(
                            pos + 1,
                            pos + 1 + n,
                        ));
                    }
                }
            },
            Err(_) => {},
        }
    }
}

/// Reading depends on the bytes that are read and on nothing else: where the
/// same bytes stand in another buffer, the same integer is read from them.
pub proof fn lemma_leb_read_local(a: Seq<u8>, p: int, b: Seq<u8>, q: int, budget: nat)
    requires
        leb_read(a, p, budget) matches Ok((v, n)) && occurs_at(b, q, a.subrange(p, p + n)),
    ensures
        leb_read(b, q, budget) == leb_read(a, p, budget),
    decreases budget,
{
    lemma_leb_read_bounds(a, p, budget);
    let (v, n) = leb_read(a, p, budget)->Ok_0;
    let window = a.subrange(p, p + n);
    assert(b[q] == b.subrange(q, q + n)[0]);
    assert(window[0] == a[p]);
    if budget <= 1 || a[p] < 128 {
    } else {
        lemma_leb_read_bounds(a, p + 1, (budget - 1) as nat);
        let (w, m) = leb_read(a, p + 1, (budget - 1) as nat)->Ok_0;
        assert(b.subrange(q + 1, q + 1 + m) =~= b.subrange(q, q + n).subrange(1, n as int));
        assert(a.subrange(p + 1, p + 1 + m) =~= window.subrange(1, n as int));
        lemma_leb_read_local(a, p + 1, b, q + 1, (budget - 1) as nat);
    }
}

fn read_groups(bytes: &[u8], pos: usize, budget: usize) -> (r: Result<(u64, usize), LebError>)
    requires
        budget <= 10,
    ensures
        bytes@.len() <= usize::MAX,
        match r {
            Ok((v, n)) => leb_read(bytes@, pos as int, budget as nat) == Ok::<(nat, nat), LebError>(
                (v as nat, n as nat),
            ),
            Err(e) => leb_read(bytes@, pos as int, budget as nat) == Err::<(nat, nat), LebError>(e),
        },
    decreases budget,
{
    if pos >= bytes.len() {
        return Err(LebError::Truncated);
    }
    let b: u8 = bytes[pos];
    if budget <= 1 {
        if b <= 1 {
            Ok((b as u64, 1))
        } else {
            Err(LebError::Oversized)
        }
    } else if b < 128 {
        Ok((b as u64, 1))
    } else {
        match read_groups(bytes, pos + 1, budget - 1) {
            Ok((v, n)) => {
                proof {
                    lemma_leb_read_bounds(bytes@, pos + 1, (budget - 1) as nat);
                    lemma_leb_limit_values();
                    lemma_leb_limit_monotone((budget - 1) as nat, 9);
                }
                Ok(((b - 128) as u64 + 128 * v, n + 1))
            },
            Err(e) => Err(e),
        }
    }
}

proof fn lemma_leb_limit_monotone(a: nat, b: nat)
    requires
        a <= b,
    ensures
        leb_limit(a) <= leb_limit(b),
    decreases b,
{
    if a < b {
        lemma_leb_limit_monotone(a, (b - 1) as nat);
        lemma_leb_limit_grows((b - 1) as nat);
    }
}

/// Reads the unsigned LEB128 integer that starts at `pos`.
///
/// Returns the value and the number of bytes it occupied. Padded encodings
/// are accepted. Fails with `Truncated` when the buffer ends inside the
/// integer and with `Oversized` when the integer does not fit in 64 bits.
pub fn read_uleb128(bytes: &[u8], pos: usize) -> (r: Result<(u64, usize), LebError>)
    ensures
        bytes@.len() <= usize::MAX,
        match r {
            Ok((v, n)) => {
                &&& leb_decode(bytes@, pos as int) == Ok::<(nat, nat), LebError>((v as nat, n as nat))
                &&& 1 <= n <= 10
                &&& pos + n <= bytes@.len()
            },
            Err(e) => leb_decode(bytes@, pos as int) == Err::<(nat, nat), LebError>(e),
        },
{
    proof {
        lemma_leb_decode_bounds(bytes@, pos as int);
    }
    read_groups(bytes, pos, MAX_LEB_BYTES)
}

/// Appends the minimal unsigned LEB128 encoding of `value` to `out`.
pub fn write_uleb128(out: &mut Vec<u8>, value: u64)
    ensures
        final(out)@ == old(out)@ + leb_encode(value as nat),
{
    let mut rest: u64 = value;
    while rest >= 0x80
        invariant
            old(out)@ + leb_encode(value as nat) == out@ + leb_encode(rest as nat),
        decreases rest,
    {
        let group: u8 = ((rest & 0x7f) | 0x80) as u8;
        assert(group == rest % 128 + 128 && rest >> 7 == rest / 128) by (bit_vector)
            requires
                group == ((rest & 0x7f) | 0x80) as u8,
        ;
        proof {
            let tail = leb_encode((rest / 128) as nat);
            assert(out@ + leb_encode(rest as nat) =~= out@.push(group) + tail);
        }
        out.push(group);
        rest = rest >> 7;
    }
    proof {
        assert(out@ + leb_encode(rest as nat) =~= out@.push(rest as u8));
    }
    out.push(rest as u8);
}

} // verus!
