//! SCALE codecs for the wire formats the sync task reads and writes: compact
//! integers, block headers, and the parachain validation-data query.
//!
//! The grammar is written down once as spec functions (`spec_*_decode`, with
//! `spec_*_encode` for the shapes the task produces), and each executable
//! decoder is proved to compute exactly what the spec decoder says; the
//! round-trip law ties the decoders to the encodings.

use vstd::prelude::*;

use vstd::arithmetic::div_mod::lemma_fundamental_div_mod;
use vstd::arithmetic::div_mod::lemma_fundamental_div_mod_converse;
use vstd::arithmetic::div_mod::lemma_mod_mod;
use vstd::arithmetic::div_mod::lemma_multiply_divide_lt;

verus! {

// ---------------------------------------------------------------------------
// Little-endian integers.
// ---------------------------------------------------------------------------

/// The value of a little-endian byte string.
pub open spec fn spec_le_value(s: Seq<u8>) -> nat
    decreases s.len(),
{
    if s.len() == 0 {
        0
    } else {
        s[0] as nat + 256 * spec_le_value(s.skip(1))
    }
}

/// `256 ^ n`.
pub open spec fn pow256(n: nat) -> nat
    decreases n,
{
    if n == 0 {
        1
    } else {
        256 * pow256((n - 1) as nat)
    }
}

/// The `len`-byte little-endian encoding of `n`.
pub open spec fn spec_le_bytes(n: nat, len: nat) -> Seq<u8>
    decreases len,
{
    if len == 0 {
        Seq::empty()
    } else {
        seq![(n % 256) as u8] + spec_le_bytes(n / 256, (len - 1) as nat)
    }
}

pub proof fn lemma_le_value_bound(s: Seq<u8>)
    ensures
        spec_le_value(s) < pow256(s.len()),
    decreases s.len(),
{
    if s.len() > 0 {
        lemma_le_value_bound(s.skip(1));
    }
}

pub proof fn lemma_le_bytes_len(n: nat, len: nat)
    ensures
        spec_le_bytes(n, len).len() == len,
    decreases len,
{
    if len > 0 {
        lemma_le_bytes_len(n / 256, (len - 1) as nat);
    }
}

/// Law: reading a little-endian encoding back gives the encoded value.
pub proof fn lemma_le_round_trip(n: nat, len: nat)
    requires
        n < pow256(len),
    ensures
        spec_le_value(spec_le_bytes(n, len)) == n,
    decreases len,
{
    if len > 0 {
        let first = (n % 256) as u8;
        let rest = spec_le_bytes(n / 256, (len - 1) as nat);
        lemma_le_bytes_len(n / 256, (len - 1) as nat);
        assert((seq![first] + rest).skip(1) =~= rest);
        assert((seq![first] + rest)[0] == first);
        assert(n / 256 < pow256((len - 1) as nat)) by {
            lemma_multiply_divide_lt(n as int, 256, pow256((len - 1) as nat) as int);
        }
        lemma_le_round_trip(n / 256, (len - 1) as nat);
        lemma_fundamental_div_mod(n as int, 256);
    }
}

/// Read `n <= 8` little-endian bytes as an unsigned integer.
fn read_le_u64(v: &Vec<u8>, pos: usize, n: usize) -> (r: u64)
    requires
        n <= 8,
        pos + n <= v@.len(),
    ensures
        r as nat == spec_le_value(v@.subrange(pos as int, pos as int + n as int)),
{
    let ghost sub = v@.subrange(pos as int, pos as int + n as int);
    let vlen = v.len();
    let mut val: u64 = 0;
    let mut j: usize = n;
    while j > 0
        invariant
            j <= n,
            n <= 8,
            vlen == v@.len(),
            pos + n <= vlen,
            sub == v@.subrange(pos as int, pos as int + n as int),
            val as nat == spec_le_value(sub.skip(j as int)),
        decreases j,
    {
        proof {
            lemma_le_value_bound(sub.skip(j as int));
            assert(sub.len() == n as int);
            assert(sub.skip(j as int).len() == n - j);
            assert(pow256((n - j) as nat) <= pow256(7)) by {
                lemma_pow256_increases((n - j) as nat, 7);
            }
            assert(pow256(7) == 0x100_0000_0000_0000) by {
                lemma_pow256_values();
            }
            assert((val as nat) < pow256((n - j) as nat));
            assert(val <= 0xff_ffff_ffff_ffffu64);
        }
        j = j - 1;
        let b = v[pos + j];
        proof {
            assert(sub.skip(j as int)[0] == sub[j as int]);
            assert(sub[j as int] == v@[pos + j as int]);
            assert(sub.skip(j as int).skip(1) =~= sub.skip(j as int + 1));
        }
        val = val * 256 + (b as u64);
    }
    proof {
        assert(sub.skip(0) =~= sub);
    }
    val
}

proof fn lemma_pow256_values()
    ensures
        pow256(0) == 1,
        pow256(1) == 0x100,
        pow256(2) == 0x1_0000,
        pow256(3) == 0x100_0000,
        pow256(4) == 0x1_0000_0000,
        pow256(5) == 0x100_0000_0000,
        pow256(6) == 0x1_0000_0000_0000,
        pow256(7) == 0x100_0000_0000_0000,
        pow256(8) == 0x1_0000_0000_0000_0000,
{
    assert(pow256(0) == 1);
    assert(pow256(1) == 0x100);
    assert(pow256(2) == 0x1_0000);
    assert(pow256(3) == 0x100_0000);
    assert(pow256(4) == 0x1_0000_0000);
    assert(pow256(5) == 0x100_0000_0000);
    assert(pow256(6) == 0x1_0000_0000_0000);
    assert(pow256(7) == 0x100_0000_0000_0000);
    assert(pow256(8) == 0x1_0000_0000_0000_0000);
}

proof fn lemma_pow256_increases(a: nat, b: nat)
    requires
        a <= b,
    ensures
        pow256(a) <= pow256(b),
    decreases b,
{
    if a < b {
        lemma_pow256_increases(a, (b - 1) as nat);
    }
}

// ---------------------------------------------------------------------------
// SCALE compact integers (up to 64 bits).
// ---------------------------------------------------------------------------

/// How many bytes the big-integer mode needs for `n`.
pub open spec fn spec_compact_big_len(n: u64) -> nat {
    if n < 0x1_0000_0000 {
        4
    } else if n < 0x100_0000_0000 {
        5
    } else if n < 0x1_0000_0000_0000 {
        6
    } else if n < 0x100_0000_0000_0000 {
        7
    } else {
        8
    }
}

/// The canonical SCALE compact encoding of `n`.
pub open spec fn spec_compact_encode(n: u64) -> Seq<u8> {
    if n < 64 {
        seq![(n * 4) as u8]
    } else if n < 16384 {
        spec_le_bytes((n * 4 + 1) as nat, 2)
    } else if n < 0x4000_0000 {
        spec_le_bytes((n * 4 + 2) as nat, 4)
    } else {
        let len = spec_compact_big_len(n);
        seq![(((len - 4) * 4 + 3)) as u8] + spec_le_bytes(n as nat, len)
    }
}

/// Decode a canonical compact integer at `pos`; `Some` carries the value and
/// the position after it.
pub open spec fn spec_compact_decode(s: Seq<u8>, pos: int) -> Option<(u64, int)> {
    if !(0 <= pos < s.len()) {
        None
    } else {
        let b = s[pos] as nat;
        let mode = b % 4;
        if mode == 0 {
            Some(((b / 4) as u64, pos + 1))
        } else if mode == 1 {
            if pos + 2 <= s.len() {
                let v = spec_le_value(s.subrange(pos, pos + 2)) / 4;
                if 64 <= v < 16384 {
                    Some((v as u64, pos + 2))
                } else {
                    None
                }
            } else {
                None
            }
        } else if mode == 2 {
            if pos + 4 <= s.len() {
                let v = spec_le_value(s.subrange(pos, pos + 4)) / 4;
                if 16384 <= v < 0x4000_0000 {
                    Some((v as u64, pos + 4))
                } else {
                    None
                }
            } else {
                None
            }
        } else {
            let len = b / 4 + 4;
            if len <= 8 && pos + 1 + len <= s.len() {
                let v = spec_le_value(s.subrange(pos + 1, pos + 1 + len));
                if v >= 0x4000_0000 && v >= pow256((len - 1) as nat) {
                    Some((v as u64, pos + 1 + len))
                } else {
                    None
                }
            } else {
                None
            }
        }
    }
}

/// Decode a canonical compact integer from `bytes` at `pos`.
pub fn decode_compact_u64(bytes: &Vec<u8>, pos: usize) -> (r: Option<(u64, usize)>)
    requires
        pos <= bytes@.len(),
    ensures
        match r {
            Some((value, end)) => spec_compact_decode(bytes@, pos as int) == Some(
                (value, end as int),
            ) && pos < end <= bytes@.len(),
            None => spec_compact_decode(bytes@, pos as int) is None,
        },
{
    if pos >= bytes.len() {
        return None;
    }
    let b = bytes[pos];
    let mode = b % 4;
    if mode == 0 {
        Some(((b / 4) as u64, pos + 1))
    } else if mode == 1 {
        if bytes.len() - pos < 2 {
            return None;
        }
        let raw = read_le_u64(bytes, pos, 2);
        proof {
            lemma_le_value_bound(bytes@.subrange(pos as int, pos as int + 2));
            lemma_pow256_values();
        }
        let value = raw / 4;
        if value >= 64 && value < 16384 {
            Some((value, pos + 2))
        } else {
            None
        }
    } else if mode == 2 {
        if bytes.len() - pos < 4 {
            return None;
        }
        let raw = read_le_u64(bytes, pos, 4);
        proof {
            lemma_le_value_bound(bytes@.subrange(pos as int, pos as int + 4));
            lemma_pow256_values();
        }
        let value = raw / 4;
        if value >= 16384 && value < 0x4000_0000 {
            Some((value, pos + 4))
        } else {
            None
        }
    } else {
        let len = (b / 4) as usize + 4;
        if len > 8 || bytes.len() - pos - 1 < len {
            return None;
        }
        let value = read_le_u64(bytes, pos + 1, len);
        proof {
            lemma_le_value_bound(bytes@.subrange(pos + 1 as int, pos + 1 + len as int));
            lemma_pow256_values();
        }
        let min: u64 = if len == 4 {
            0x1_00_00_00u64
        } else if len == 5 {
            0x1_0000_0000u64
        } else if len == 6 {
            0x100_0000_0000u64
        } else if len == 7 {
            0x1_0000_0000_0000u64
        } else {
            0x100_0000_0000_0000u64
        };
        proof {
            lemma_pow256_values();
            assert(min as nat == pow256((len - 1) as nat));
        }
        if value >= 0x4000_0000 && value >= min {
            Some((value, pos + 1 + len))
        } else {
            None
        }
    }
}

/// Law: decoding a canonical compact encoding, wherever it stands in a
/// stream, yields the encoded value and stops right after it.
pub proof fn lemma_compact_round_trip(prefix: Seq<u8>, n: u64, rest: Seq<u8>)
    ensures
        spec_compact_decode(prefix + spec_compact_encode(n) + rest, prefix.len() as int) == Some(
            (n, prefix.len() as int + spec_compact_encode(n).len() as int),
        ),
{
    let enc = spec_compact_encode(n);
    let s = prefix + enc + rest;
    let pos = prefix.len() as int;
    if n >= 64 && n < 0x4000_0000 {
        lemma_le_bytes_len((n * 4 + 1) as nat, 2);
        lemma_le_bytes_len((n * 4 + 2) as nat, 4);
    }
    if n >= 0x4000_0000 {
        lemma_le_bytes_len(n as nat, spec_compact_big_len(n));
    }
    assert forall|i: int| 0 <= i < enc.len() implies s[pos + i] == enc[i] by {
        assert((prefix + enc)[pos + i] == enc[i]);
    }
    if n < 64 {
        assert(s[pos] == (n * 4) as u8);
        assert((n * 4) as nat % 4 == 0 && (n * 4) as nat / 4 == n as nat) by {
            lemma_fundamental_div_mod_converse((n * 4) as int, 4, n as int, 0);
        }
    } else if n < 16384 {
        let x = (n * 4 + 1) as nat;
        assert(s.subrange(pos, pos + 2) =~= spec_le_bytes(x, 2));
        lemma_pow256_values();
        lemma_le_round_trip(x, 2);
        assert(s[pos] == spec_le_bytes(x, 2)[0]);
        assert(spec_le_bytes(x, 2)[0] == (x % 256) as u8);
        assert((x % 256) % 4 == x % 4) by {
            lemma_mod_mod(x as int, 4, 64);
        }
        assert(x % 4 == 1 && x / 4 == n as nat) by {
            lemma_fundamental_div_mod_converse(x as int, 4, n as int, 1);
        }
    } else if n < 0x4000_0000 {
        let x = (n * 4 + 2) as nat;
        assert(s.subrange(pos, pos + 4) =~= spec_le_bytes(x, 4));
        lemma_pow256_values();
        lemma_le_round_trip(x, 4);
        assert(s[pos] == spec_le_bytes(x, 4)[0]);
        assert(spec_le_bytes(x, 4)[0] == (x % 256) as u8);
        assert((x % 256) % 4 == x % 4) by {
            lemma_mod_mod(x as int, 4, 64);
        }
        assert(x % 4 == 2 && x / 4 == n as nat) by {
            lemma_fundamental_div_mod_converse(x as int, 4, n as int, 2);
        }
    } else {
        let len = spec_compact_big_len(n);
        let tag = (((len - 4) * 4 + 3)) as u8;
        assert(s[pos] == tag);
        assert(tag as nat % 4 == 3 && tag as nat / 4 == (len - 4) as nat) by {
            lemma_fundamental_div_mod_converse(tag as int, 4, (len - 4) as int, 3);
        }
        assert(s.subrange(pos + 1, pos + 1 + len as int) =~= spec_le_bytes(n as nat, len));
        lemma_pow256_values();
        lemma_le_round_trip(n as nat, len);
        assert(n as nat >= pow256((len - 1) as nat));
    }
}

/// A little-endian string is recovered from its own value.
proof fn lemma_le_bytes_of_value(s: Seq<u8>)
    ensures
        spec_le_bytes(spec_le_value(s), s.len()) == s,
    decreases s.len(),
{
    if s.len() > 0 {
        let x = spec_le_value(s);
        let tail = s.skip(1);
        assert(x == s[0] as nat + 256 * spec_le_value(tail));
        assert(x % 256 == s[0] as nat && x / 256 == spec_le_value(tail)) by {
            lemma_fundamental_div_mod_converse(
                x as int,
                256,
                spec_le_value(tail) as int,
                s[0] as int,
            );
        }
        lemma_le_bytes_of_value(tail);
        assert(spec_le_bytes(x, s.len()) =~= s);
    } else {
        assert(spec_le_bytes(spec_le_value(s), s.len()) =~= s);
    }
}

/// Law: whatever the compact decoder accepts is the canonical encoding of
/// the value it returns — no other byte string decodes to that value there.
pub proof fn lemma_compact_sound(s: Seq<u8>, pos: int)
    requires
        spec_compact_decode(s, pos) is Some,
    ensures
        ({
            let (v, end) = spec_compact_decode(s, pos).unwrap();
            s.subrange(pos, end) == spec_compact_encode(v)
        }),
{
    let (v, end) = spec_compact_decode(s, pos).unwrap();
    let b = s[pos] as nat;
    let mode = b % 4;
    lemma_pow256_values();
    if mode == 0 {
        assert(b == 4 * (b / 4) + b % 4) by {
            lemma_fundamental_div_mod(b as int, 4);
        }
        assert(s.subrange(pos, pos + 1) =~= seq![(v * 4) as u8]);
    } else if mode == 1 {
        let sub = s.subrange(pos, pos + 2);
        let x = spec_le_value(sub);
        assert(sub[0] == s[pos]);
        assert(x % 256 == sub[0] as nat && x / 256 == spec_le_value(sub.skip(1))) by {
            lemma_fundamental_div_mod_converse(
                x as int,
                256,
                spec_le_value(sub.skip(1)) as int,
                sub[0] as int,
            );
        }
        assert((x % 256) % 4 == x % 4) by {
            lemma_mod_mod(x as int, 4, 64);
        }
        assert(x == 4 * (x / 4) + x % 4) by {
            lemma_fundamental_div_mod(x as int, 4);
        }
        assert(x == v as nat * 4 + 1);
        lemma_le_bytes_of_value(sub);
        assert(s.subrange(pos, pos + 2) == spec_le_bytes((v * 4 + 1) as nat, 2));
    } else if mode == 2 {
        let sub = s.subrange(pos, pos + 4);
        let x = spec_le_value(sub);
        assert(sub[0] == s[pos]);
        assert(x % 256 == sub[0] as nat && x / 256 == spec_le_value(sub.skip(1))) by {
            lemma_fundamental_div_mod_converse(
                x as int,
                256,
                spec_le_value(sub.skip(1)) as int,
                sub[0] as int,
            );
        }
        assert((x % 256) % 4 == x % 4) by {
            lemma_mod_mod(x as int, 4, 64);
        }
        assert(x == 4 * (x / 4) + x % 4) by {
            lemma_fundamental_div_mod(x as int, 4);
        }
        assert(x == v as nat * 4 + 2);
        lemma_le_bytes_of_value(sub);
        assert(s.subrange(pos, pos + 4) == spec_le_bytes((v * 4 + 2) as nat, 4));
    } else {
        let len = b / 4 + 4;
        let sub = s.subrange(pos + 1, pos + 1 + len as int);
        assert(sub.len() == len);
        lemma_le_value_bound(sub);
        assert(pow256(len) <= pow256(8)) by {
            lemma_pow256_increases(len, 8);
        }
        assert(v as nat == spec_le_value(sub));
        // the checked minimality pins the length the encoder would pick
        assert(spec_compact_big_len(v) == len);
        assert(b == 4 * (b / 4) + b % 4) by {
            lemma_fundamental_div_mod(b as int, 4);
        }
        assert(s[pos] == (((len - 4) * 4 + 3)) as u8);
        lemma_le_bytes_of_value(sub);
        assert(s.subrange(pos, end) =~= seq![s[pos]] + sub);
        assert(s.subrange(pos, end) == spec_compact_encode(v));
    }
}

// ---------------------------------------------------------------------------
// Block headers.
// ---------------------------------------------------------------------------

/// One entry of a header's digest.
pub enum DigestItem {
    /// Consensus-engine data placed before the block runs; the engine id is
    /// four bytes.
    PreRuntime { engine: Vec<u8>, payload: Vec<u8> },
    /// A message from the runtime to the consensus engine.
    Consensus { engine: Vec<u8>, payload: Vec<u8> },
    /// The seal put on the block by its author.
    Seal { engine: Vec<u8>, payload: Vec<u8> },
    /// Opaque data ignored by consensus.
    Other { payload: Vec<u8> },
    /// Marker: the runtime environment was updated.
    RuntimeUpdated,
}

pub enum DigestItemModel {
    PreRuntime { engine: Seq<u8>, payload: Seq<u8> },
    Consensus { engine: Seq<u8>, payload: Seq<u8> },
    Seal { engine: Seq<u8>, payload: Seq<u8> },
    Other { payload: Seq<u8> },
    RuntimeUpdated,
}

impl View for DigestItem {
    type V = DigestItemModel;

    open spec fn view(&self) -> DigestItemModel {
        match self {
            DigestItem::PreRuntime { engine, payload } => DigestItemModel::PreRuntime {
                engine: engine@,
                payload: payload@,
            },
            DigestItem::Consensus { engine, payload } => DigestItemModel::Consensus {
                engine: engine@,
                payload: payload@,
            },
            DigestItem::Seal { engine, payload } => DigestItemModel::Seal {
                engine: engine@,
                payload: payload@,
            },
            DigestItem::Other { payload } => DigestItemModel::Other { payload: payload@ },
            DigestItem::RuntimeUpdated => DigestItemModel::RuntimeUpdated,
        }
    }
}

/// A decoded block header.
pub struct Header {
    pub parent_hash: Vec<u8>,
    pub number: u64,
    pub state_root: Vec<u8>,
    pub extrinsics_root: Vec<u8>,
    pub digest: Vec<DigestItem>,
}

pub struct HeaderModel {
    pub parent_hash: Seq<u8>,
    pub number: u64,
    pub state_root: Seq<u8>,
    pub extrinsics_root: Seq<u8>,
    pub digest: Seq<DigestItemModel>,
}

impl View for Header {
    type V = HeaderModel;

    open spec fn view(&self) -> HeaderModel {
        HeaderModel {
            parent_hash: self.parent_hash@,
            number: self.number,
            state_root: self.state_root@,
            extrinsics_root: self.extrinsics_root@,
            digest: self.digest@.map_values(|d: DigestItem| d@),
        }
    }
}

impl HeaderModel {
    pub open spec fn wf(&self) -> bool {
        &&& self.parent_hash.len() == 32
        &&& self.state_root.len() == 32
        &&& self.extrinsics_root.len() == 32
    }
}

/// Decode one digest item at `pos`.
pub open spec fn spec_digest_item_decode(s: Seq<u8>, pos: int) -> Option<(DigestItemModel, int)> {
    if !(0 <= pos < s.len()) {
        None
    } else {
        let tag = s[pos];
        if tag == 4 || tag == 5 || tag == 6 {
            if pos + 5 <= s.len() {
                let engine = s.subrange(pos + 1, pos + 5);
                match spec_compact_decode(s, pos + 5) {
                    Some((len, p2)) => if p2 + len <= s.len() {
                        let payload = s.subrange(p2, p2 + len);
                        let item = if tag == 6 {
                            DigestItemModel::PreRuntime { engine, payload }
                        } else if tag == 4 {
                            DigestItemModel::Consensus { engine, payload }
                        } else {
                            DigestItemModel::Seal { engine, payload }
                        };
                        Some((item, p2 + len))
                    } else {
                        None
                    },
                    None => None,
                }
            } else {
                None
            }
        } else if tag == 0 {
            match spec_compact_decode(s, pos + 1) {
                Some((len, p2)) => if p2 + len <= s.len() {
                    Some((DigestItemModel::Other { payload: s.subrange(p2, p2 + len) }, p2 + len))
                } else {
                    None
                },
                None => None,
            }
        } else if tag == 8 {
            Some((DigestItemModel::RuntimeUpdated, pos + 1))
        } else {
            None
        }
    }
}

/// Decode `count` digest items starting at `pos`.
pub open spec fn spec_digest_list_decode(s: Seq<u8>, pos: int, count: u64) -> Option<
    (Seq<DigestItemModel>, int),
>
    decreases count,
{
    if count == 0 {
        Some((Seq::empty(), pos))
    } else {
        match spec_digest_item_decode(s, pos) {
            Some((item, p2)) => match spec_digest_list_decode(s, p2, (count - 1) as u64) {
                Some((items, p3)) => Some((seq![item] + items, p3)),
                None => None,
            },
            None => None,
        }
    }
}

/// Decode a whole SCALE-encoded block header; every byte must be consumed.
pub open spec fn spec_header_decode(s: Seq<u8>) -> Option<HeaderModel> {
    if s.len() < 32 {
        None
    } else {
        let parent_hash = s.subrange(0, 32);
        match spec_compact_decode(s, 32) {
            Some((number, p1)) => if p1 + 64 <= s.len() {
                let state_root = s.subrange(p1, p1 + 32);
                let extrinsics_root = s.subrange(p1 + 32, p1 + 64);
                match spec_compact_decode(s, p1 + 64) {
                    Some((count, p2)) => match spec_digest_list_decode(s, p2, count) {
                        Some((digest, p3)) => if p3 == s.len() {
                            Some(
                                HeaderModel {
                                    parent_hash,
                                    number,
                                    state_root,
                                    extrinsics_root,
                                    digest,
                                },
                            )
                        } else {
                            None
                        },
                        None => None,
                    },
                    None => None,
                }
            } else {
                None
            },
            None => None,
        }
    }
}

/// Copy `v[pos .. pos + n]` out; `None` when the range does not fit.
fn read_bytes(v: &Vec<u8>, pos: usize, n: usize) -> (r: Option<(Vec<u8>, usize)>)
    requires
        pos <= v@.len(),
    ensures
        match r {
            Some((bytes, end)) => pos + n <= v@.len() && end == pos + n && bytes@ == v@.subrange(
                pos as int,
                pos as int + n as int,
            ),
            None => pos + n > v@.len(),
        },
{
    if v.len() - pos < n {
        return None;
    }
    let vlen = v.len();
    let mut out: Vec<u8> = Vec::new();
    let mut i: usize = 0;
    while i < n
        invariant
            i <= n,
            vlen == v@.len(),
            pos + n <= vlen,
            out@ == v@.subrange(pos as int, pos as int + i as int),
        decreases n - i,
    {
        out.push(v[pos + i]);
        i = i + 1;
        proof {
            assert(v@.subrange(pos as int, pos as int + i as int) =~= v@.subrange(
                pos as int,
                pos as int + i - 1,
            ).push(v@[pos as int + i - 1]));
        }
    }
    Some((out, pos + n))
}

fn decode_digest_item(bytes: &Vec<u8>, pos: usize) -> (r: Option<(DigestItem, usize)>)
    requires
        pos <= bytes@.len(),
    ensures
        match r {
            Some((item, end)) => spec_digest_item_decode(bytes@, pos as int) == Some(
                (item@, end as int),
            ) && pos < end <= bytes@.len(),
            None => spec_digest_item_decode(bytes@, pos as int) is None,
        },
{
    if pos >= bytes.len() {
        return None;
    }
    let tag = bytes[pos];
    if tag == 4 || tag == 5 || tag == 6 {
        let (engine, p1) = match read_bytes(bytes, pos + 1, 4) {
            Some(x) => x,
            None => {
                return None;
            },
        };
        let (len, p2) = match decode_compact_u64(bytes, p1) {
            Some(x) => x,
            None => {
                return None;
            },
        };
        if len > (bytes.len() - p2) as u64 {
            return None;
        }
        let (payload, p3) = match read_bytes(bytes, p2, len as usize) {
            Some(x) => x,
            None => {
                return None;
            },
        };
        let item = if tag == 6 {
            DigestItem::PreRuntime { engine, payload }
        } else if tag == 4 {
            DigestItem::Consensus { engine, payload }
        } else {
            DigestItem::Seal { engine, payload }
        };
        Some((item, p3))
    } else if tag == 0 {
        let (len, p2) = match decode_compact_u64(bytes, pos + 1) {
            Some(x) => x,
            None => {
                return None;
            },
        };
        if len > (bytes.len() - p2) as u64 {
            return None;
        }
        let (payload, p3) = match read_bytes(bytes, p2, len as usize) {
            Some(x) => x,
            None => {
                return None;
            },
        };
        Some((DigestItem::Other { payload }, p3))
    } else if tag == 8 {
        Some((DigestItem::RuntimeUpdated, pos + 1))
    } else {
        None
    }
}

fn decode_digest_list(bytes: &Vec<u8>, pos: usize, count: u64) -> (r: Option<(Vec<DigestItem>, usize)>)
    requires
        pos <= bytes@.len(),
    ensures
        match r {
            Some((items, end)) => spec_digest_list_decode(bytes@, pos as int, count) == Some(
                (items@.map_values(|d: DigestItem| d@), end as int),
            ) && pos <= end <= bytes@.len(),
            None => spec_digest_list_decode(bytes@, pos as int, count) is None,
        },
    decreases count,
{
    if count == 0 {
        let items: Vec<DigestItem> = Vec::new();
        proof {
            assert(items@.map_values(|d: DigestItem| d@) =~= Seq::<DigestItemModel>::empty());
        }
        return Some((items, pos));
    }
    let (item, p2) = match decode_digest_item(bytes, pos) {
        Some(x) => x,
        None => {
            return None;
        },
    };
    let (rest, p3) = match decode_digest_list(bytes, p2, count - 1) {
        Some(x) => x,
        None => {
            return None;
        },
    };
    let ghost item_model = item@;
    let ghost rest_models = rest@.map_values(|d: DigestItem| d@);
    let mut items = rest;
    items.insert(0, item);
    proof {
        assert(items@ == rest@.insert(0, item));
        assert(items@.map_values(|d: DigestItem| d@) =~= seq![item_model] + rest_models);
    }
    Some((items, p3))
}

/// Decode a SCALE-encoded block header. Returns `Some` exactly when the
/// bytes are a complete, canonical header encoding, as
/// [`spec_header_decode`] states.
pub fn decode_header(bytes: &Vec<u8>) -> (r: Option<Header>)
    ensures
        match r {
            Some(h) => spec_header_decode(bytes@) == Some(h@) && h@.wf(),
            None => spec_header_decode(bytes@) is None,
        },
{
    if bytes.len() < 32 {
        return None;
    }
    let (parent_hash, p0) = match read_bytes(bytes, 0, 32) {
        Some(x) => x,
        None => {
            return None;
        },
    };
    let (number, p1) = match decode_compact_u64(bytes, p0) {
        Some(x) => x,
        None => {
            return None;
        },
    };
    if bytes.len() - p1 < 64 {
        return None;
    }
    let (state_root, _) = match read_bytes(bytes, p1, 32) {
        Some(x) => x,
        None => {
            return None;
        },
    };
    let (extrinsics_root, p2) = match read_bytes(bytes, p1 + 32, 32) {
        Some(x) => x,
        None => {
            return None;
        },
    };
    let (count, p3) = match decode_compact_u64(bytes, p2) {
        Some(x) => x,
        None => {
            return None;
        },
    };
    let (digest, p4) = match decode_digest_list(bytes, p3, count) {
        Some(x) => x,
        None => {
            return None;
        },
    };
    if p4 != bytes.len() {
        return None;
    }
    let h = Header { parent_hash, number, state_root, extrinsics_root, digest };
    Some(h)
}

// ---------------------------------------------------------------------------
// The parachain validation-data query.
// ---------------------------------------------------------------------------

/// How an occupied parachain core is treated by the validation-data query.
pub enum OccupiedCoreAssumption {
    /// The candidate occupying the core was included.
    Included,
    /// The candidate occupying the core timed out.
    TimedOut,
    /// The core is free.
    Free,
}

pub open spec fn spec_assumption_index(a: OccupiedCoreAssumption) -> u8 {
    match a {
        OccupiedCoreAssumption::Included => 0,
        OccupiedCoreAssumption::TimedOut => 1,
        OccupiedCoreAssumption::Free => 2,
    }
}

/// The SCALE-encoded parameters of the validation-data runtime call: the
/// parachain id as four little-endian bytes, then the assumption's index.
pub open spec fn spec_pvd_params_encode(parachain_id: u32, a: OccupiedCoreAssumption) -> Seq<u8> {
    spec_le_bytes(parachain_id as nat, 4) + seq![spec_assumption_index(a)]
}

/// Encode the parameters of the validation-data runtime call.
pub fn persisted_validation_data_parameters(parachain_id: u32, assumption: OccupiedCoreAssumption) -> (r:
    Vec<u8>)
    ensures
        r@ == spec_pvd_params_encode(parachain_id, assumption),
{
    let mut out: Vec<u8> = Vec::new();
    out.push((parachain_id % 256) as u8);
    out.push(((parachain_id / 256) % 256) as u8);
    out.push(((parachain_id / 65536) % 256) as u8);
    out.push(((parachain_id / 16777216) % 256) as u8);
    let tag: u8 = match assumption {
        OccupiedCoreAssumption::Included => 0,
        OccupiedCoreAssumption::TimedOut => 1,
        OccupiedCoreAssumption::Free => 2,
    };
    out.push(tag);
    proof {
        let n = parachain_id as nat;
        reveal_with_fuel(spec_le_bytes, 5);
        assert(spec_le_bytes(n, 4) =~= seq![
            (n % 256) as u8,
            ((n / 256) % 256) as u8,
            ((n / 65536) % 256) as u8,
            ((n / 16777216) % 256) as u8,
        ]) by {
            assert(spec_le_bytes(n / 256 / 256 / 256, 0) =~= Seq::<u8>::empty());
            assert(n / 256 / 256 == n / 65536) by {
                vstd::arithmetic::div_mod::lemma_div_denominator(n as int, 256, 256);
            }
            assert(n / 65536 / 256 == n / 16777216) by {
                vstd::arithmetic::div_mod::lemma_div_denominator(n as int, 65536, 256);
            }
        }
        assert(out@ =~= spec_pvd_params_encode(parachain_id, assumption));
    }
    out
}

/// The validation data the relay runtime reports for a parachain.
pub struct PersistedValidationData {
    /// The parachain's head data; in practice a SCALE-encoded block header.
    pub parent_head: Vec<u8>,
    pub relay_parent_number: u32,
    pub relay_parent_storage_root: Vec<u8>,
    pub max_pov_size: u32,
}

pub struct PvdModel {
    pub parent_head: Seq<u8>,
    pub relay_parent_number: u32,
    pub relay_parent_storage_root: Seq<u8>,
    pub max_pov_size: u32,
}

impl View for PersistedValidationData {
    type V = PvdModel;

    open spec fn view(&self) -> PvdModel {
        PvdModel {
            parent_head: self.parent_head@,
            relay_parent_number: self.relay_parent_number,
            relay_parent_storage_root: self.relay_parent_storage_root@,
            max_pov_size: self.max_pov_size,
        }
    }
}

/// Decode the return value of the validation-data runtime call: an optional
/// validation-data record, with every byte consumed.
pub open spec fn spec_pvd_return_decode(s: Seq<u8>) -> Option<Option<PvdModel>> {
    if s.len() < 1 {
        None
    } else if s[0] == 0 {
        if s.len() == 1 {
            Some(None)
        } else {
            None
        }
    } else if s[0] == 1 {
        match spec_compact_decode(s, 1) {
            Some((head_len, p1)) => if p1 + head_len + 40 == s.len() {
                let parent_head = s.subrange(p1, p1 + head_len);
                let p2 = p1 + head_len;
                let number = spec_le_value(s.subrange(p2, p2 + 4));
                let root = s.subrange(p2 + 4, p2 + 36);
                let max_pov = spec_le_value(s.subrange(p2 + 36, p2 + 40));
                Some(
                    Some(
                        PvdModel {
                            parent_head,
                            relay_parent_number: number as u32,
                            relay_parent_storage_root: root,
                            max_pov_size: max_pov as u32,
                        },
                    ),
                )
            } else {
                None
            },
            None => None,
        }
    } else {
        None
    }
}

/// Law: whatever the validation-data decoder accepts is exactly the encoding
/// of the value it returns.
pub proof fn lemma_pvd_sound(s: Seq<u8>)
    requires
        spec_pvd_return_decode(s) is Some,
    ensures
        ({
            let v = spec_pvd_return_decode(s).unwrap();
            &&& spec_pvd_return_encode(v) == s
            &&& (v matches Some(p) ==> pvd_wf(p))
        }),
{
    let v = spec_pvd_return_decode(s).unwrap();
    if s[0] == 0 {
        assert(spec_pvd_return_encode(v) =~= s);
    } else {
        let (head_len, p1) = spec_compact_decode(s, 1).unwrap();
        lemma_compact_sound(s, 1);
        assert(s.subrange(1, p1) == spec_compact_encode(head_len));
        let p2 = p1 + head_len as int;
        let number = spec_le_value(s.subrange(p2, p2 + 4));
        let max_pov = spec_le_value(s.subrange(p2 + 36, p2 + 40));
        lemma_pow256_values();
        lemma_le_value_bound(s.subrange(p2, p2 + 4));
        lemma_le_value_bound(s.subrange(p2 + 36, p2 + 40));
        lemma_le_bytes_of_value(s.subrange(p2, p2 + 4));
        lemma_le_bytes_of_value(s.subrange(p2 + 36, p2 + 40));
        assert(s.subrange(p2, p2 + 4).len() == 4);
        assert(s.subrange(p2 + 36, p2 + 40).len() == 4);
        assert(spec_le_bytes(number, 4) == s.subrange(p2, p2 + 4));
        assert(spec_le_bytes(max_pov, 4) == s.subrange(p2 + 36, p2 + 40));
        assert(s =~= seq![1u8] + s.subrange(1, p1) + s.subrange(p1, p2) + s.subrange(p2, p2 + 4)
            + s.subrange(p2 + 4, p2 + 36) + s.subrange(p2 + 36, p2 + 40));
    }
}

/// Why the validation-data return value could not be decoded.
#[derive(Debug)]
pub enum PvdDecodeError {
    Malformed,
}

/// Decode the return value of the validation-data runtime call.
pub fn decode_persisted_validation_data_return_value(bytes: &Vec<u8>) -> (r: Result<
    Option<PersistedValidationData>,
    PvdDecodeError,
>)
    ensures
        match r {
            Ok(Some(p)) => spec_pvd_return_decode(bytes@) == Some(Some(p@)),
            Ok(None) => spec_pvd_return_decode(bytes@) == Some(None::<PvdModel>),
            Err(_) => spec_pvd_return_decode(bytes@) is None,
        },
{
    if bytes.len() < 1 {
        return Err(PvdDecodeError::Malformed);
    }
    let tag = bytes[0];
    if tag == 0 {
        if bytes.len() == 1 {
            Ok(None)
        } else {
            Err(PvdDecodeError::Malformed)
        }
    } else if tag == 1 {
        let (head_len, p1) = match decode_compact_u64(bytes, 1) {
            Some(x) => x,
            None => {
                return Err(PvdDecodeError::Malformed);
            },
        };
        if head_len > (bytes.len() - p1) as u64 {
            return Err(PvdDecodeError::Malformed);
        }
        let (parent_head, p2) = match read_bytes(bytes, p1, head_len as usize) {
            Some(x) => x,
            None => {
                return Err(PvdDecodeError::Malformed);
            },
        };
        if bytes.len() - p2 != 40 {
            return Err(PvdDecodeError::Malformed);
        }
        let number = read_le_u64(bytes, p2, 4);
        let (root, p3) = match read_bytes(bytes, p2 + 4, 32) {
            Some(x) => x,
            None => {
                return Err(PvdDecodeError::Malformed);
            },
        };
        let max_pov = read_le_u64(bytes, p3, 4);
        proof {
            lemma_le_value_bound(bytes@.subrange(p2 as int, p2 as int + 4));
            lemma_le_value_bound(bytes@.subrange(p3 as int, p3 as int + 4));
            lemma_pow256_values();
        }
        Ok(
            Some(
                PersistedValidationData {
                    parent_head,
                    relay_parent_number: number as u32,
                    relay_parent_storage_root: root,
                    max_pov_size: max_pov as u32,
                },
            ),
        )
    } else {
        Err(PvdDecodeError::Malformed)
    }
}

// ---------------------------------------------------------------------------
// Encodings, and the laws tying the decoders to them.
// ---------------------------------------------------------------------------

pub open spec fn spec_digest_item_encode(d: DigestItemModel) -> Seq<u8> {
    match d {
        DigestItemModel::PreRuntime { engine, payload } => seq![6u8] + engine + spec_compact_encode(
            payload.len() as u64,
        ) + payload,
        DigestItemModel::Consensus { engine, payload } => seq![4u8] + engine + spec_compact_encode(
            payload.len() as u64,
        ) + payload,
        DigestItemModel::Seal { engine, payload } => seq![5u8] + engine + spec_compact_encode(
            payload.len() as u64,
        ) + payload,
        DigestItemModel::Other { payload } => seq![0u8] + spec_compact_encode(payload.len() as u64)
            + payload,
        DigestItemModel::RuntimeUpdated => seq![8u8],
    }
}

pub open spec fn spec_digest_encode(items: Seq<DigestItemModel>) -> Seq<u8>
    decreases items.len(),
{
    if items.len() == 0 {
        Seq::empty()
    } else {
        spec_digest_item_encode(items[0]) + spec_digest_encode(items.skip(1))
    }
}

/// The SCALE encoding of a header model.
pub open spec fn spec_header_encode(h: HeaderModel) -> Seq<u8> {
    h.parent_hash + spec_compact_encode(h.number) + h.state_root + h.extrinsics_root
        + spec_compact_encode(h.digest.len() as u64) + spec_digest_encode(h.digest)
}

/// A digest item whose encoding is well defined: a four-byte engine id and a
/// payload whose length the wire format can carry.
pub open spec fn digest_item_wf(d: DigestItemModel) -> bool {
    match d {
        DigestItemModel::PreRuntime { engine, payload } => engine.len() == 4 && payload.len()
            <= u64::MAX,
        DigestItemModel::Consensus { engine, payload } => engine.len() == 4 && payload.len()
            <= u64::MAX,
        DigestItemModel::Seal { engine, payload } => engine.len() == 4 && payload.len()
            <= u64::MAX,
        DigestItemModel::Other { payload } => payload.len() <= u64::MAX,
        DigestItemModel::RuntimeUpdated => true,
    }
}

proof fn lemma_digest_item_round_trip(prefix: Seq<u8>, d: DigestItemModel, rest: Seq<u8>)
    requires
        digest_item_wf(d),
    ensures
        spec_digest_item_decode(prefix + spec_digest_item_encode(d) + rest, prefix.len() as int)
            == Some((d, prefix.len() as int + spec_digest_item_encode(d).len() as int)),
{
    let enc = spec_digest_item_encode(d);
    let s = prefix + enc + rest;
    let pos = prefix.len() as int;
    assert forall|i: int| 0 <= i < enc.len() implies s[pos + i] == enc[i] by {
        assert((prefix + enc)[pos + i] == enc[i]);
    }
    match d {
        DigestItemModel::RuntimeUpdated => {
            assert(s[pos] == 8u8);
        },
        DigestItemModel::Other { payload } => {
            let lenc = spec_compact_encode(payload.len() as u64);
            assert(s[pos] == 0u8);
            lemma_compact_round_trip(prefix + seq![0u8], payload.len() as u64, payload + rest);
            assert((prefix + seq![0u8]) + lenc + (payload + rest) =~= s);
            let p2 = pos + 1 + lenc.len() as int;
            assert(spec_compact_decode(s, pos + 1) == Some((payload.len() as u64, p2)));
            assert(s.subrange(p2, p2 + payload.len() as int) =~= payload);
        },
        DigestItemModel::PreRuntime { engine, payload } => {
            lemma_digest_engine_case(prefix, 6u8, engine, payload, rest, enc);
            assert(s[pos] == 6u8);
        },
        DigestItemModel::Consensus { engine, payload } => {
            lemma_digest_engine_case(prefix, 4u8, engine, payload, rest, enc);
            assert(s[pos] == 4u8);
        },
        DigestItemModel::Seal { engine, payload } => {
            lemma_digest_engine_case(prefix, 5u8, engine, payload, rest, enc);
            assert(s[pos] == 5u8);
        },
    }
}

/// The shared shape of the three engine-carrying digest items.
proof fn lemma_digest_engine_case(
    prefix: Seq<u8>,
    tag: u8,
    engine: Seq<u8>,
    payload: Seq<u8>,
    rest: Seq<u8>,
    enc: Seq<u8>,
)
    requires
        engine.len() == 4,
        payload.len() <= u64::MAX,
        enc == seq![tag] + engine + spec_compact_encode(payload.len() as u64) + payload,
    ensures
        ({
            let s = prefix + enc + rest;
            let pos = prefix.len() as int;
            let lenc = spec_compact_encode(payload.len() as u64);
            let p2 = pos + 5 + lenc.len() as int;
            &&& s[pos] == tag
            &&& s.subrange(pos + 1, pos + 5) == engine
            &&& spec_compact_decode(s, pos + 5) == Some((payload.len() as u64, p2))
            &&& p2 + payload.len() <= s.len()
            &&& s.subrange(p2, p2 + payload.len() as int) == payload
            &&& pos + enc.len() == p2 + payload.len()
        }),
{
    let s = prefix + enc + rest;
    let pos = prefix.len() as int;
    let lenc = spec_compact_encode(payload.len() as u64);
    let p2 = pos + 5 + lenc.len() as int;
    assert forall|i: int| 0 <= i < enc.len() implies s[pos + i] == enc[i] by {
        assert((prefix + enc)[pos + i] == enc[i]);
    }
    assert(s[pos] == tag);
    assert(s.subrange(pos + 1, pos + 5) =~= engine);
    lemma_compact_round_trip(prefix + seq![tag] + engine, payload.len() as u64, payload + rest);
    assert(((prefix + seq![tag] + engine) + lenc + (payload + rest)) =~= s);
    assert(s.subrange(p2, p2 + payload.len() as int) =~= payload);
}

proof fn lemma_digest_list_round_trip(prefix: Seq<u8>, items: Seq<DigestItemModel>, rest: Seq<u8>)
    requires
        items.len() <= u64::MAX,
        forall|i: int| 0 <= i < items.len() ==> digest_item_wf(#[trigger] items[i]),
    ensures
        spec_digest_list_decode(
            prefix + spec_digest_encode(items) + rest,
            prefix.len() as int,
            items.len() as u64,
        ) == Some((items, prefix.len() as int + spec_digest_encode(items).len() as int)),
    decreases items.len(),
{
    let s = prefix + spec_digest_encode(items) + rest;
    let pos = prefix.len() as int;
    if items.len() == 0 {
        assert(spec_digest_encode(items) =~= Seq::<u8>::empty());
        assert(items =~= Seq::<DigestItemModel>::empty());
    } else {
        let e0 = spec_digest_item_encode(items[0]);
        let erest = spec_digest_encode(items.skip(1));
        lemma_digest_item_round_trip(prefix, items[0], erest + rest);
        assert((prefix + e0 + (erest + rest)) =~= s);
        lemma_digest_list_round_trip(prefix + e0, items.skip(1), rest);
        assert(((prefix + e0) + erest + rest) =~= s);
        assert(items.skip(1).len() as u64 == items.len() as u64 - 1);
        assert(seq![items[0]] + items.skip(1) =~= items);
    }
}

/// Law: decoding the encoding of a well-formed header gives the header back —
/// together with the decoder's exact contract this pins both directions of
/// the codec.
pub proof fn lemma_header_round_trip(h: HeaderModel)
    requires
        h.wf(),
        h.digest.len() <= u64::MAX,
        forall|i: int| 0 <= i < h.digest.len() ==> digest_item_wf(#[trigger] h.digest[i]),
    ensures
        spec_header_decode(spec_header_encode(h)) == Some(h),
{
    let s = spec_header_encode(h);
    let nenc = spec_compact_encode(h.number);
    let cenc = spec_compact_encode(h.digest.len() as u64);
    let denc = spec_digest_encode(h.digest);
    assert(s =~= h.parent_hash + nenc + (h.state_root + h.extrinsics_root + cenc + denc));
    lemma_compact_round_trip(h.parent_hash, h.number, h.state_root + h.extrinsics_root + cenc
        + denc);
    let p1 = 32 + nenc.len() as int;
    assert(spec_compact_decode(s, 32) == Some((h.number, p1)));
    assert(s.subrange(0, 32) =~= h.parent_hash);
    assert(s.subrange(p1, p1 + 32) =~= h.state_root);
    assert(s.subrange(p1 + 32, p1 + 64) =~= h.extrinsics_root);
    let head = h.parent_hash + nenc + h.state_root + h.extrinsics_root;
    assert((head + cenc + denc) =~= s);
    lemma_compact_round_trip(head, h.digest.len() as u64, denc);
    let p2 = p1 + 64 + cenc.len() as int;
    assert(spec_compact_decode(s, p1 + 64) == Some((h.digest.len() as u64, p2)));
    lemma_digest_list_round_trip(head + cenc, h.digest, Seq::empty());
    assert(((head + cenc) + denc + Seq::<u8>::empty()) =~= s);
    assert(spec_digest_list_decode(s, p2, h.digest.len() as u64) == Some(
        (h.digest, p2 + denc.len() as int),
    ));
    assert(p2 + denc.len() as int == s.len() as int);
}

proof fn lemma_digest_item_sound(s: Seq<u8>, pos: int)
    requires
        spec_digest_item_decode(s, pos) is Some,
    ensures
        ({
            let (d, end) = spec_digest_item_decode(s, pos).unwrap();
            &&& pos < end <= s.len()
            &&& s.subrange(pos, end) == spec_digest_item_encode(d)
            &&& digest_item_wf(d)
        }),
{
    let (d, end) = spec_digest_item_decode(s, pos).unwrap();
    let tag = s[pos];
    if tag == 4 || tag == 5 || tag == 6 {
        let engine = s.subrange(pos + 1, pos + 5);
        let (len, p2) = spec_compact_decode(s, pos + 5).unwrap();
        lemma_compact_sound(s, pos + 5);
        let lenc = spec_compact_encode(len);
        assert(s.subrange(pos + 5, p2) == lenc);
        let payload = s.subrange(p2, p2 + len as int);
        assert(payload.len() == len);
        assert(s.subrange(pos, end) =~= seq![tag] + engine + lenc + payload);
    } else if tag == 0 {
        let (len, p2) = spec_compact_decode(s, pos + 1).unwrap();
        lemma_compact_sound(s, pos + 1);
        let lenc = spec_compact_encode(len);
        assert(s.subrange(pos + 1, p2) == lenc);
        let payload = s.subrange(p2, p2 + len as int);
        assert(payload.len() == len);
        assert(s.subrange(pos, end) =~= seq![tag] + lenc + payload);
    } else {
        assert(s.subrange(pos, end) =~= seq![8u8]);
    }
}

proof fn lemma_digest_list_sound(s: Seq<u8>, pos: int, count: u64)
    requires
        spec_digest_list_decode(s, pos, count) is Some,
        0 <= pos <= s.len(),
    ensures
        ({
            let (items, end) = spec_digest_list_decode(s, pos, count).unwrap();
            &&& pos <= end <= s.len()
            &&& s.subrange(pos, end) == spec_digest_encode(items)
            &&& items.len() == count
            &&& forall|i: int| 0 <= i < items.len() ==> digest_item_wf(#[trigger] items[i])
        }),
    decreases count,
{
    let (items, end) = spec_digest_list_decode(s, pos, count).unwrap();
    if count == 0 {
        assert(s.subrange(pos, end) =~= Seq::<u8>::empty());
    } else {
        let (item, p2) = spec_digest_item_decode(s, pos).unwrap();
        lemma_digest_item_sound(s, pos);
        let (rest, p3) = spec_digest_list_decode(s, p2, (count - 1) as u64).unwrap();
        lemma_digest_list_sound(s, p2, (count - 1) as u64);
        assert(items == seq![item] + rest);
        assert(items[0] == item);
        assert(items.skip(1) =~= rest);
        assert(s.subrange(pos, end) =~= s.subrange(pos, p2) + s.subrange(p2, end));
        assert forall|i: int| 0 <= i < items.len() implies digest_item_wf(#[trigger] items[i]) by {
            if i > 0 {
                assert(items[i] == rest[i - 1]);
            }
        }
    }
}

/// Law: whatever the header decoder accepts is exactly the encoding of the
/// header it returns. With [`lemma_header_round_trip`] this makes the codec
/// a bijection between well-formed headers and their canonical encodings.
pub proof fn lemma_header_sound(s: Seq<u8>)
    requires
        spec_header_decode(s) is Some,
    ensures
        ({
            let h = spec_header_decode(s).unwrap();
            &&& spec_header_encode(h) == s
            &&& h.wf()
            &&& h.digest.len() <= u64::MAX
            &&& forall|i: int| 0 <= i < h.digest.len() ==> digest_item_wf(#[trigger] h.digest[i])
        }),
{
    let h = spec_header_decode(s).unwrap();
    let (number, p1) = spec_compact_decode(s, 32).unwrap();
    lemma_compact_sound(s, 32);
    let nenc = spec_compact_encode(number);
    assert(s.subrange(32, p1) == nenc);
    let (count, p2) = spec_compact_decode(s, p1 + 64).unwrap();
    lemma_compact_sound(s, p1 + 64);
    let cenc = spec_compact_encode(count);
    assert(s.subrange(p1 + 64, p2) == cenc);
    let (items, p3) = spec_digest_list_decode(s, p2, count).unwrap();
    lemma_digest_list_sound(s, p2, count);
    assert(s.subrange(p2, p3) == spec_digest_encode(items));
    assert(p3 == s.len());
    assert(s =~= s.subrange(0, 32) + s.subrange(32, p1) + s.subrange(p1, p1 + 32) + s.subrange(
        p1 + 32,
        p1 + 64,
    ) + s.subrange(p1 + 64, p2) + s.subrange(p2, p3));
}

/// The SCALE encoding of an optional validation-data record.
pub open spec fn spec_pvd_return_encode(v: Option<PvdModel>) -> Seq<u8> {
    match v {
        None => seq![0u8],
        Some(p) => seq![1u8] + spec_compact_encode(p.parent_head.len() as u64) + p.parent_head
            + spec_le_bytes(p.relay_parent_number as nat, 4) + p.relay_parent_storage_root
            + spec_le_bytes(p.max_pov_size as nat, 4),
    }
}

pub open spec fn pvd_wf(p: PvdModel) -> bool {
    &&& p.parent_head.len() <= u64::MAX
    &&& p.relay_parent_storage_root.len() == 32
}

/// Law: decoding the encoding of a validation-data return value gives the
/// value back.
pub proof fn lemma_pvd_round_trip(v: Option<PvdModel>)
    requires
        v matches Some(p) ==> pvd_wf(p),
    ensures
        spec_pvd_return_decode(spec_pvd_return_encode(v)) == Some(v),
{
    let s = spec_pvd_return_encode(v);
    match v {
        None => {
            assert(s[0] == 0u8);
            assert(s.len() == 1);
        },
        Some(p) => {
            let lenc = spec_compact_encode(p.parent_head.len() as u64);
            let nenc = spec_le_bytes(p.relay_parent_number as nat, 4);
            let menc = spec_le_bytes(p.max_pov_size as nat, 4);
            lemma_le_bytes_len(p.relay_parent_number as nat, 4);
            lemma_le_bytes_len(p.max_pov_size as nat, 4);
            assert(s =~= seq![1u8] + lenc + (p.parent_head + nenc + p.relay_parent_storage_root
                + menc));
            lemma_compact_round_trip(
                seq![1u8],
                p.parent_head.len() as u64,
                p.parent_head + nenc + p.relay_parent_storage_root + menc,
            );
            assert(s[0] == 1u8);
            let p1 = 1 + lenc.len() as int;
            assert(spec_compact_decode(s, 1) == Some((p.parent_head.len() as u64, p1)));
            let p2 = p1 + p.parent_head.len() as int;
            assert(p2 + 40 == s.len());
            assert(s.subrange(p1, p2) =~= p.parent_head);
            assert(s.subrange(p2, p2 + 4) =~= nenc);
            assert(s.subrange(p2 + 4, p2 + 36) =~= p.relay_parent_storage_root);
            assert(s.subrange(p2 + 36, p2 + 40) =~= menc);
            lemma_pow256_values();
            lemma_le_round_trip(p.relay_parent_number as nat, 4);
            lemma_le_round_trip(p.max_pov_size as nat, 4);
        },
    }
}

} // verus!
