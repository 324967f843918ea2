//! Length-prefixed frames of the map-reduce wire: an 8-byte little-endian
//! payload length, then the payload.
use vstd::prelude::*;

verus! {

/// Length of a frame's header.
pub const HEADER_LEN: usize = 8;

/// The number that little-endian `b` encodes.
pub open spec fn le_value(b: Seq<u8>) -> nat
    decreases b.len(),
{
    if b.len() == 0 {
        0
    } else {
        b[0] as nat + 256 * le_value(b.drop_first())
    }
}

pub open spec fn pow256(n: nat) -> nat
    decreases n,
{
    if n == 0 {
        1
    } else {
        256 * pow256((n - 1) as nat)
    }
}

pub proof fn lemma_le_value_push(s: Seq<u8>, b: u8)
    ensures
        le_value(s.push(b)) == le_value(s) + pow256(s.len()) * b,
    decreases s.len(),
{
    if s.len() > 0 {
        assert(s.push(b).drop_first() =~= s.drop_first().push(b));
        lemma_le_value_push(s.drop_first(), b);
        assert(pow256(s.len()) == 256 * pow256(s.drop_first().len()));
        assert(256 * (le_value(s.drop_first()) + pow256(s.drop_first().len()) * b) == 256 * le_value(
            s.drop_first(),
        ) + 256 * pow256(s.drop_first().len()) * b) by (nonlinear_arith);
        assert(s.push(b)[0] == s[0]);
        assert(le_value(s.push(b)) == s[0] as nat + 256 * le_value(s.push(b).drop_first()));
        assert(le_value(s) == s[0] as nat + 256 * le_value(s.drop_first()));
        assert(256 * pow256(s.drop_first().len()) * b == pow256(s.len()) * b) by (nonlinear_arith)
            requires pow256(s.len()) == 256 * pow256(s.drop_first().len());
    } else {
        assert(s.push(b).drop_first() =~= Seq::<u8>::empty());
        assert(le_value(s.push(b).drop_first()) == 0);
        assert(s.push(b)[0] == b);
        assert(le_value(s.push(b)) == b as nat + 256 * le_value(s.push(b).drop_first()));
        assert(pow256(0) == 1);
        assert(le_value(s) == 0);
    }
}

/// The frame that carries `payload`.
pub fn encode_frame(payload: &Vec<u8>) -> (r: Vec<u8>)
    ensures
        r@.len() == HEADER_LEN + payload@.len(),
        le_value(r@.subrange(0, HEADER_LEN as int)) == payload@.len(),
        r@.subrange(HEADER_LEN as int, r@.len() as int) == payload@,
{
    let n = payload.len() as u64;
    let mut r: Vec<u8> = Vec::new();
    let mut x: u64 = n;
    let mut i: usize = 0;
    assert(le_value(r@) == 0);
    assert(pow256(0) == 1);
    while i < HEADER_LEN
        invariant
            i <= HEADER_LEN,
            r@.len() == i,
            le_value(r@) + pow256(i as nat) * x == n,
            pow256(i as nat) * x <= n,
        decreases HEADER_LEN - i,
    {
        let b = (x % 256) as u8;
        proof {
            lemma_le_value_push(r@, b);
            assert(pow256((i + 1) as nat) == 256 * pow256(i as nat));
            assert(pow256(i as nat) * x == pow256(i as nat) * (x % 256) + 256 * pow256(i as nat) * (x / 256)) by (nonlinear_arith)
                requires x == 256 * (x / 256) + x % 256;
            assert(pow256(i as nat) * (x % 256) >= 0) by (nonlinear_arith);
        }
        r.push(b);
        x = x / 256;
        i += 1;
    }
    proof {
        assert(pow256(8) == 0x1_0000_0000_0000_0000nat) by {
            reveal_with_fuel(pow256, 9);
        }
        assert(x == 0) by (nonlinear_arith)
            requires pow256(8) * x <= n, n < 0x1_0000_0000_0000_0000nat, pow256(8) == 0x1_0000_0000_0000_0000nat;
    }
    let ghost header = r@;
    let mut k: usize = 0;
    while k < payload.len()
        invariant
            k <= payload@.len(),
            r@.len() == HEADER_LEN + k,
            r@.subrange(0, HEADER_LEN as int) == header,
            r@.subrange(HEADER_LEN as int, r@.len() as int) == payload@.subrange(0, k as int),
        decreases payload@.len() - k,
    {
        r.push(payload[k]);
        k += 1;
        assert(r@.subrange(0, HEADER_LEN as int) =~= header);
        assert(r@.subrange(HEADER_LEN as int, r@.len() as int) =~= payload@.subrange(0, k as int));
    }
    assert(header =~= r@.subrange(0, HEADER_LEN as int));
    assert(payload@.subrange(0, k as int) =~= payload@);
    r
}

/// The payload length that a frame's header announces, once the header
/// has arrived.
pub fn frame_payload_len(frame: &[u8]) -> (r: Option<u64>)
    ensures
        frame@.len() < HEADER_LEN ==> r.is_none(),
        frame@.len() >= HEADER_LEN ==> r.is_some() && r.unwrap() as nat == le_value(
            frame@.subrange(0, HEADER_LEN as int),
        ),
{
    if frame.len() < HEADER_LEN {
        return None;
    }
    let mut v: u64 = 0;
    let mut i: usize = HEADER_LEN;
    while i > 0
        invariant
            i <= HEADER_LEN <= frame@.len(),
            v as nat == le_value(frame@.subrange(i as int, HEADER_LEN as int)),
            (v as nat) < pow256((HEADER_LEN - i) as nat),
        decreases i,
    {
        let ghost s = frame@.subrange((i - 1) as int, HEADER_LEN as int);
        assert(s.drop_first() =~= frame@.subrange(i as int, HEADER_LEN as int));
        assert(pow256((HEADER_LEN - i + 1) as nat) == 256 * pow256((HEADER_LEN - i) as nat));
        assert(pow256(8) == 0x1_0000_0000_0000_0000nat) by {
            reveal_with_fuel(pow256, 9);
        }
        assert(pow256((HEADER_LEN - i + 1) as nat) <= pow256(8)) by {
            assert(pow256(0) == 1) by {
            reveal_with_fuel(pow256, 9);
        }
            assert(pow256(1) == 256) by {
            reveal_with_fuel(pow256, 9);
        }
            assert(pow256(2) == 65536) by {
            reveal_with_fuel(pow256, 9);
        }
            assert(pow256(3) == 16777216) by {
            reveal_with_fuel(pow256, 9);
        }
            assert(pow256(4) == 4294967296) by {
            reveal_with_fuel(pow256, 9);
        }
            assert(pow256(5) == 1099511627776) by {
            reveal_with_fuel(pow256, 9);
        }
            assert(pow256(6) == 281474976710656) by {
            reveal_with_fuel(pow256, 9);
        }
            assert(pow256(7) == 72057594037927936) by {
            reveal_with_fuel(pow256, 9);
        }
        }
        let b = frame[i - 1];
        assert((b as nat) + 256 * (v as nat) < 256 * pow256((HEADER_LEN - i) as nat)) by (nonlinear_arith)
            requires (v as nat) < pow256((HEADER_LEN - i) as nat), b < 256;
        v = (b as u64) + 256 * v;
        i -= 1;
    }
    Some(v)
}

} // verus!
