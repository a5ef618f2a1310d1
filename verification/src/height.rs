//! The durable height record: the most recently observed slot, stored as
//! eight little-endian bytes under a fixed one-byte key.

use vstd::prelude::*;

use crate::domain::Height;

verus! {

/// The single key the height record lives under.
pub const HEIGHT_KEY: u8 = 1;

/// The one-byte key of the height store.
pub struct HeightKey(u8);

impl HeightKey {
    /// The key's byte.
    pub closed spec fn spec_byte(&self) -> u8 {
        self.0
    }

    /// Reads a key back from stored bytes; anything but a single byte falls
    /// back to the fixed key.
    pub fn from_u8(key: &[u8]) -> (r: Self)
        ensures
            r.spec_byte() == if key@.len() == 1 {
                key@[0]
            } else {
                HEIGHT_KEY
            },
    {
        if key.len() != 1 {
            return Self(HEIGHT_KEY);
        }
        Self(key[0])
    }

    /// The key's bytes, as stored.
    pub fn as_bytes(&self) -> (r: Vec<u8>)
        ensures
            r@ == seq![self.spec_byte()],
    {
        let mut v: Vec<u8> = Vec::new();
        v.push(self.0);
        proof {
            assert(v@ =~= seq![self.spec_byte()]);
        }
        v
    }
}

impl Default for HeightKey {
    /// The fixed key of the height record.
    fn default() -> (r: Self)
        ensures
            r.spec_byte() == HEIGHT_KEY,
    {
        Self(HEIGHT_KEY)
    }
}

/// The little-endian bytes of `h`, `n` bytes long, least significant first.
pub open spec fn le_bytes(h: nat, n: nat) -> Seq<u8>
    decreases n,
{
    if n == 0 {
        Seq::empty()
    } else {
        seq![(h % 256) as u8] + le_bytes(h / 256, (n - 1) as nat)
    }
}

/// The value of little-endian bytes, least significant first.
pub open spec fn le_value(s: Seq<u8>) -> nat
    decreases s.len(),
{
    if s.len() == 0 {
        0
    } else {
        (s[0] + 256 * le_value(s.drop_first())) as nat
    }
}

/// A value below `256^n` survives the round trip through its `n` bytes.
pub proof fn lemma_le_value_of_bytes(h: nat, n: nat)
    requires
        h < vstd::arithmetic::power::pow(256, n),
    ensures
        le_value(le_bytes(h, n)) == h,
    decreases n,
{
    vstd::arithmetic::power::lemma_pow_positive(256, n);
    if n == 0 {
        vstd::arithmetic::power::lemma_pow0(256);
        assert(h == 0);
        assert(le_bytes(h, 0) =~= Seq::<u8>::empty());
    } else {
        let rest = h / 256;
        assert(vstd::arithmetic::power::pow(256, n) == 256 * vstd::arithmetic::power::pow(
            256,
            (n - 1) as nat,
        )) by {
            reveal(vstd::arithmetic::power::pow);
        }
        assert(rest < vstd::arithmetic::power::pow(256, (n - 1) as nat)) by (nonlinear_arith)
            requires
                h < 256 * vstd::arithmetic::power::pow(256, (n - 1) as nat),
                rest == h / 256,
        ;
        lemma_le_value_of_bytes(rest, (n - 1) as nat);
        let s = le_bytes(h, n);
        lemma_le_bytes_len(h, n);
        assert(s.drop_first() =~= le_bytes(rest, (n - 1) as nat));
        assert(s[0] == (h % 256) as u8);
        assert(le_value(s) == s[0] + 256 * le_value(s.drop_first()));
        assert(h % 256 + 256 * (h / 256) == h) by (nonlinear_arith);
    }
}

/// Little-endian bytes are determined by their value and length.
pub proof fn lemma_le_bytes_of_value(s: Seq<u8>)
    ensures
        le_bytes(le_value(s), s.len()) == s,
    decreases s.len(),
{
    if s.len() > 0 {
        let h = le_value(s);
        let rest = s.drop_first();
        lemma_le_bytes_of_value(rest);
        assert(h == s[0] + 256 * le_value(rest));
        assert(h % 256 == s[0] && h / 256 == le_value(rest)) by (nonlinear_arith)
            requires
                h == s[0] + 256 * le_value(rest),
                0 <= s[0] < 256,
        ;
        assert(le_bytes(h, s.len()) =~= s) by {
            assert(le_bytes(h, s.len()) == seq![(h % 256) as u8] + le_bytes(
                h / 256,
                (s.len() - 1) as nat,
            ));
        }
    }
}

/// The value of `n` bytes is below `256^n`.
proof fn lemma_le_value_bound(s: Seq<u8>)
    ensures
        le_value(s) < vstd::arithmetic::power::pow(256, s.len()),
    decreases s.len(),
{
    vstd::arithmetic::power::lemma_pow_positive(256, s.len());
    if s.len() > 0 {
        let rest = s.drop_first();
        lemma_le_value_bound(rest);
        assert(vstd::arithmetic::power::pow(256, s.len()) == 256 * vstd::arithmetic::power::pow(
            256,
            (s.len() - 1) as nat,
        )) by {
            reveal(vstd::arithmetic::power::pow);
        }
        assert(s[0] + 256 * le_value(rest) < 256 * vstd::arithmetic::power::pow(
            256,
            (s.len() - 1) as nat,
        )) by (nonlinear_arith)
            requires
                le_value(rest) < vstd::arithmetic::power::pow(256, (s.len() - 1) as nat),
                0 <= s[0] < 256,
        ;
    }
}

/// Appends the `n`-byte little-endian form of `h` to `out`.
fn push_le_bytes(h: u64, n: usize, out: &mut Vec<u8>)
    ensures
        final(out)@ == old(out)@ + le_bytes(h as nat, n as nat),
    decreases n,
{
    if n == 0 {
        proof {
            assert(old(out)@ + le_bytes(h as nat, 0) =~= old(out)@);
        }
        return ;
    }
    let b = (h % 256) as u8;
    out.push(b);
    push_le_bytes(h / 256, n - 1, out);
    proof {
        assert(final(out)@ =~= old(out)@ + le_bytes(h as nat, n as nat));
    }
}

/// The stored form of a height: its eight little-endian bytes.
pub fn encode_height(h: Height) -> (r: Vec<u8>)
    ensures
        r@ == le_bytes(h as nat, 8),
        le_value(r@) == h,
        r@.len() == 8,
{
    let mut out: Vec<u8> = Vec::new();
    push_le_bytes(h, 8, &mut out);
    proof {
        lemma_pow256_8();
        lemma_le_value_of_bytes(h as nat, 8);
        assert(le_bytes(h as nat, 8).len() == 8) by {
            lemma_le_bytes_len(h as nat, 8);
        }
    }
    out
}

proof fn lemma_le_bytes_len(h: nat, n: nat)
    ensures
        le_bytes(h, n).len() == n,
    decreases n,
{
    if n > 0 {
        lemma_le_bytes_len(h / 256, (n - 1) as nat);
    }
}

/// A stored byte sequence whose length is not eight is a corrupt height
/// record.
#[derive(Debug, Clone, Copy, PartialEq, Eq, Structural)]
pub enum HeightError {
    WrongLength,
}

/// Reads a height back from its stored bytes. Succeeds exactly on eight
/// bytes, and then returns the height they are the little-endian form of.
pub fn decode_height(b: &[u8]) -> (r: Result<Height, HeightError>)
    ensures
        match r {
            Ok(h) => b@.len() == 8 && b@ == le_bytes(h as nat, 8) && h == le_value(b@),
            Err(_) => b@.len() != 8,
        },
{
    if b.len() != 8 {
        return Err(HeightError::WrongLength);
    }
    let mut h: u64 = 0;
    let mut k: usize = 8;
    proof {
        assert(b@.subrange(8, 8) =~= Seq::<u8>::empty());
    }
    while k > 0
        invariant
            k <= 8,
            b@.len() == 8,
            h == le_value(b@.subrange(k as int, 8)),
            le_value(b@.subrange(k as int, 8)) <= u64::MAX,
        decreases k,
    {
        let ghost pre = b@.subrange(k as int, 8);
        proof {
            let cur = b@.subrange(k - 1, 8);
            assert(cur.drop_first() =~= pre);
            assert(cur[0] == b@[k - 1]);
            lemma_le_value_bound(cur);
            assert(vstd::arithmetic::power::pow(256, cur.len()) <= 0x10000000000000000) by {
                lemma_pow256_le(cur.len());
            }
        }
        h = (b[k - 1] as u64) + 256 * h;
        k -= 1;
    }
    proof {
        assert(b@.subrange(0, 8) =~= b@);
        lemma_le_bytes_of_value(b@);
    }
    Ok(h)
}

proof fn lemma_pow256_8()
    ensures
        vstd::arithmetic::power::pow(256, 8) == 0x10000000000000000,
{
    reveal(vstd::arithmetic::power::pow);
    assert(vstd::arithmetic::power::pow(256, 0) == 1);
    assert(vstd::arithmetic::power::pow(256, 1) == 256);
    assert(vstd::arithmetic::power::pow(256, 2) == 0x10000);
    assert(vstd::arithmetic::power::pow(256, 3) == 0x1000000);
    assert(vstd::arithmetic::power::pow(256, 4) == 0x100000000);
    assert(vstd::arithmetic::power::pow(256, 5) == 0x10000000000);
    assert(vstd::arithmetic::power::pow(256, 6) == 0x1000000000000);
    assert(vstd::arithmetic::power::pow(256, 7) == 0x100000000000000);
    assert(vstd::arithmetic::power::pow(256, 8) == 0x10000000000000000);
}

proof fn lemma_pow256_le(n: nat)
    requires
        n <= 8,
    ensures
        vstd::arithmetic::power::pow(256, n) <= 0x10000000000000000,
    decreases n,
{
    lemma_pow256_8();
    if n < 8 {
        vstd::arithmetic::power::lemma_pow_increases(256, n, 8);
    }
}

/// Reads the seed height at startup: nothing stored means no height yet; a
/// stored record must be exactly eight bytes.
pub fn get_height(stored: Option<Vec<u8>>) -> (r: Result<Option<Height>, HeightError>)
    ensures
        match r {
            Ok(opt) => match opt {
                Some(h) => stored matches Some(b) && b@.len() == 8 && h == le_value(b@),
                None => stored is None,
            },
            Err(_) => stored matches Some(b) && b@.len() != 8,
        },
{
    match stored {
        Some(b) => match decode_height(b.as_slice()) {
            Ok(h) => Ok(Some(h)),
            Err(e) => Err(e),
        },
        None => Ok(None),
    }
}

} // verus!
