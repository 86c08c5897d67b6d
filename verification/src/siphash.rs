//! SipHash-2-4, which is what makes the stateless scan stateless.
//!
//! The port scan keeps no record of the probes it sent: a keyed hash of
//! source, destination and port goes into the TCP initial sequence number and
//! a reply is recognised by recomputing it. Two compression rounds per message
//! block and four finalisation rounds, the variant everything interoperable
//! uses. The function is stated below as [`siphash24`], block by block, and
//! [`SipHasher::hash`] is proved to compute it.

use vstd::prelude::*;

verus! {

/// The four words of SipHash state.
pub struct SipState {
    pub v0: u64,
    pub v1: u64,
    pub v2: u64,
    pub v3: u64,
}

/// Rotation of a 64-bit word to the left by `k` bits, `0 < k < 64`.
pub open spec fn rotl(x: u64, k: u64) -> u64 {
    (x << k) | (x >> (64 - k) as u64)
}

/// One SipRound.
pub open spec fn sip_round(s: SipState) -> SipState {
    let v0 = s.v0.wrapping_add(s.v1);
    let v1 = rotl(s.v1, 13) ^ v0;
    let v0 = rotl(v0, 32);
    let v2 = s.v2.wrapping_add(s.v3);
    let v3 = rotl(s.v3, 16) ^ v2;
    let v0 = v0.wrapping_add(v3);
    let v3 = rotl(v3, 21) ^ v0;
    let v2 = v2.wrapping_add(v1);
    let v1 = rotl(v1, 17) ^ v2;
    let v2 = rotl(v2, 32);
    SipState { v0, v1, v2, v3 }
}

/// The state after the key is loaded.
pub open spec fn sip_init(k0: u64, k1: u64) -> SipState {
    SipState {
        v0: k0 ^ 0x736f_6d65_7073_6575u64,
        v1: k1 ^ 0x646f_7261_6e64_6f6du64,
        v2: k0 ^ 0x6c79_6765_6e65_7261u64,
        v3: k1 ^ 0x7465_6462_7974_6573u64,
    }
}

/// One message word absorbed: xored into `v3`, two rounds, xored into `v0`.
pub open spec fn sip_compress(s: SipState, m: u64) -> SipState {
    let t = sip_round(sip_round(SipState { v3: s.v3 ^ m, ..s }));
    SipState { v0: t.v0 ^ m, ..t }
}

/// The eight bytes of `msg` from `at`, read little-endian.
pub open spec fn word_le(msg: Seq<u8>, at: int) -> u64 {
    (msg[at] as u64) | ((msg[at + 1] as u64) << 8u64) | ((msg[at + 2] as u64) << 16u64) | ((
    msg[at + 3] as u64) << 24u64) | ((msg[at + 4] as u64) << 32u64) | ((msg[at + 5] as u64)
        << 40u64) | ((msg[at + 6] as u64) << 48u64) | ((msg[at + 7] as u64) << 56u64)
}

/// The state after the first `n` whole eight-byte blocks of `msg`.
pub open spec fn sip_blocks(s: SipState, msg: Seq<u8>, n: nat) -> SipState
    decreases n,
{
    if n == 0 {
        s
    } else {
        sip_compress(sip_blocks(s, msg, (n - 1) as nat), word_le(msg, 8 * (n - 1)))
    }
}

/// The final block: the message length in the top byte, and the first `k` of
/// the bytes left over after the whole blocks, little-endian, below it.
pub open spec fn sip_tail(msg: Seq<u8>, whole: int, k: nat) -> u64
    decreases k,
{
    if k == 0 {
        ((msg.len() as u64) & 0xffu64) << 56u64
    } else {
        sip_tail(msg, whole, (k - 1) as nat) | ((msg[whole + k - 1] as u64) << (8 * (k - 1))
            as u64)
    }
}

/// Four rounds after `v2` is xored with `0xff`.
pub open spec fn sip_finish(s: SipState) -> u64 {
    let t = sip_round(sip_round(sip_round(sip_round(SipState { v2: s.v2 ^ 0xffu64, ..s }))));
    t.v0 ^ t.v1 ^ t.v2 ^ t.v3
}

/// SipHash-2-4 of `msg` under the key `(k0, k1)`.
pub open spec fn siphash24(k0: u64, k1: u64, msg: Seq<u8>) -> u64 {
    let whole = msg.len() / 8;
    let s = sip_blocks(sip_init(k0, k1), msg, whole);
    let last = sip_tail(msg, (8 * whole) as int, (msg.len() % 8) as nat);
    sip_finish(sip_compress(s, last))
}

/// A SipHash-2-4 key.
pub struct SipHasher {
    k0: u64,
    k1: u64,
}

fn rotl_exec(x: u64, k: u64) -> (r: u64)
    requires
        0 < k < 64,
    ensures
        r == rotl(x, k),
{
    (x << k) | (x >> (64 - k))
}

fn round(s: SipState) -> (r: SipState)
    ensures
        r == sip_round(s),
{
    let v0 = s.v0.wrapping_add(s.v1);
    let v1 = rotl_exec(s.v1, 13) ^ v0;
    let v0 = rotl_exec(v0, 32);
    let v2 = s.v2.wrapping_add(s.v3);
    let v3 = rotl_exec(s.v3, 16) ^ v2;
    let v0 = v0.wrapping_add(v3);
    let v3 = rotl_exec(v3, 21) ^ v0;
    let v2 = v2.wrapping_add(v1);
    let v1 = rotl_exec(v1, 17) ^ v2;
    let v2 = rotl_exec(v2, 32);
    SipState { v0, v1, v2, v3 }
}

fn compress(s: SipState, m: u64) -> (r: SipState)
    ensures
        r == sip_compress(s, m),
{
    let t = round(round(SipState { v0: s.v0, v1: s.v1, v2: s.v2, v3: s.v3 ^ m }));
    SipState { v0: t.v0 ^ m, v1: t.v1, v2: t.v2, v3: t.v3 }
}

impl SipHasher {
    pub closed spec fn key0(self) -> u64 {
        self.k0
    }

    pub closed spec fn key1(self) -> u64 {
        self.k1
    }

    pub fn new(k0: u64, k1: u64) -> (h: SipHasher)
        ensures
            h.key0() == k0,
            h.key1() == k1,
    {
        SipHasher { k0, k1 }
    }

    /// Hashes a message with this key.
    pub fn hash(&self, msg: &[u8]) -> (h: u64)
        ensures
            h == siphash24(self.key0(), self.key1(), msg@),
    {
        let len = msg.len();
        let whole = len / 8;
        let mut s = SipState {
            v0: self.k0 ^ 0x736f_6d65_7073_6575u64,
            v1: self.k1 ^ 0x646f_7261_6e64_6f6du64,
            v2: self.k0 ^ 0x6c79_6765_6e65_7261u64,
            v3: self.k1 ^ 0x7465_6462_7974_6573u64,
        };
        let mut i: usize = 0;
        while i < whole
            invariant
                len == msg@.len(),
                whole == len / 8,
                i <= whole,
                s == sip_blocks(sip_init(self.k0, self.k1), msg@, i as nat),
            decreases whole - i,
        {
            let at = 8 * i;
            let m = (msg[at] as u64) | ((msg[at + 1] as u64) << 8u64) | ((msg[at + 2] as u64)
                << 16u64) | ((msg[at + 3] as u64) << 24u64) | ((msg[at + 4] as u64) << 32u64) | ((
            msg[at + 5] as u64) << 40u64) | ((msg[at + 6] as u64) << 48u64) | ((msg[at + 7] as u64)
                << 56u64);
            s = compress(s, m);
            i += 1;
        }
        let start = 8 * whole;
        let rest = len - start;
        let mut last: u64 = ((len as u64) & 0xffu64) << 56u64;
        let mut k: usize = 0;
        while k < rest
            invariant
                len == msg@.len(),
                start == 8 * (len / 8),
                rest == len - start,
                rest < 8,
                k <= rest,
                last == sip_tail(msg@, start as int, k as nat),
            decreases rest - k,
        {
            last = last | ((msg[start + k] as u64) << ((8 * k) as u64));
            k += 1;
        }
        s = compress(s, last);
        let s = round(round(round(round(SipState { v0: s.v0, v1: s.v1, v2: s.v2 ^ 0xffu64, v3: s.v3 }))));
        s.v0 ^ s.v1 ^ s.v2 ^ s.v3
    }
}

} // verus!
