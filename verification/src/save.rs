use vstd::prelude::*;

use crate::chunk::{local_in_range, ChunkPosition, ChunkVoxels};
use crate::terrain::{block_at_position, spec_block_at, NoiseField};
use crate::voxel::{spec_byte_kind, spec_kind_byte, LocalVoxelPosition, VoxelKind, VoxelPosition};

verus! {

/// Failures of the save codec: the load path is all-or-nothing, so any of
/// these leaves the world untouched.
#[derive(Copy, Clone, Debug, PartialEq, Eq, Structural)]
pub enum SaveError {
    /// The stream ended inside a record.
    UnexpectedEof,
    /// A variable-length integer does not fit its target type.
    Overflow,
    /// A voxel-kind byte that no kind encodes to.
    BadVoxelKind,
}

/// Longest accepted variable-length integer encoding, in bytes. Ten bytes
/// suffice for any 64-bit value; a few redundant padding bytes are tolerated.
pub const MAX_LEB_BYTES: usize = 16;

/// Decode of an unsigned little-endian base-128 integer from the head of
/// `s`: the low seven bits of each byte, least significant group first, up
/// to and including the first byte without the continuation bit.
pub open spec fn leb_u_decode(s: Seq<u8>) -> Option<(int, int)>
    decreases s.len(),
{
    if s.len() == 0 {
        None
    } else {
        let b = s[0];
        if b < 128 {
            Some((b as int, 1))
        } else {
            match leb_u_decode(s.skip(1)) {
                Some((v, n)) => Some(((b - 128) + 128 * v, n + 1)),
                None => None,
            }
        }
    }
}

/// Decode of a signed little-endian base-128 integer: as the unsigned form,
/// but the final byte's seven bits are sign-extended.
pub open spec fn leb_s_decode(s: Seq<u8>) -> Option<(int, int)>
    decreases s.len(),
{
    if s.len() == 0 {
        None
    } else {
        let b = s[0];
        if b < 128 {
            Some((if b >= 64 {
                b - 128
            } else {
                b as int
            }, 1))
        } else {
            match leb_s_decode(s.skip(1)) {
                Some((v, n)) => Some(((b - 128) + 128 * v, n + 1)),
                None => None,
            }
        }
    }
}

/// An unsigned decode accepted by the reader: terminated within the byte
/// cap and in range of the target type.
pub open spec fn leb_u_ok(s: Seq<u8>) -> bool {
    match leb_u_decode(s) {
        Some((v, n)) => n <= MAX_LEB_BYTES && 0 <= v < 0x1_0000_0000_0000_0000,
        None => false,
    }
}

/// A signed decode accepted by the reader.
pub open spec fn leb_s_ok(s: Seq<u8>) -> bool {
    match leb_s_decode(s) {
        Some((v, n)) => n <= MAX_LEB_BYTES && -0x8000_0000_0000_0000 <= v
            < 0x8000_0000_0000_0000,
        None => false,
    }
}

/// The value of a successful decode.
pub open spec fn leb_u_val(s: Seq<u8>) -> int {
    leb_u_decode(s)->Some_0.0
}

/// The bytes a successful decode consumes.
pub open spec fn leb_u_len(s: Seq<u8>) -> int {
    leb_u_decode(s)->Some_0.1
}

pub open spec fn leb_s_val(s: Seq<u8>) -> int {
    leb_s_decode(s)->Some_0.0
}

pub open spec fn leb_s_len(s: Seq<u8>) -> int {
    leb_s_decode(s)->Some_0.1
}

/// 128 raised to `n`.
pub open spec fn pow128(n: nat) -> int
    decreases n,
{
    if n == 0 {
        1
    } else {
        128 * pow128((n - 1) as nat)
    }
}

/// `pow128` is at least 1 and monotone.
proof fn lemma_pow128_mono(a: nat, b: nat)
    requires
        a <= b,
    ensures
        1 <= pow128(a) <= pow128(b),
    decreases b,
{
    if b > 0 {
        if a < b {
            lemma_pow128_mono(a, (b - 1) as nat);
        } else {
            lemma_pow128_mono((a - 1) as nat, (b - 1) as nat);
        }
    }
}

/// The numeric value of the byte cap's power.
proof fn lemma_pow128_16()
    ensures
        pow128(16) == 0x1_0000_0000_0000_0000_0000_0000_0000,
        pow128(10) == 0x40_0000_0000_0000_0000,
        pow128(9) == 0x8000_0000_0000_0000,
{
    reveal_with_fuel(pow128, 17);
}

/// A successful decode consumes at least one byte.
proof fn lemma_leb_u_len_pos(s: Seq<u8>)
    requires
        leb_u_decode(s) is Some,
    ensures
        leb_u_decode(s)->Some_0.1 >= 1,
    decreases s.len(),
{
    if s.len() > 0 && s[0] >= 128 && leb_u_decode(s.skip(1)) is Some {
        lemma_leb_u_len_pos(s.skip(1));
    }
}

proof fn lemma_leb_s_len_pos(s: Seq<u8>)
    requires
        leb_s_decode(s) is Some,
    ensures
        leb_s_decode(s)->Some_0.1 >= 1,
    decreases s.len(),
{
    if s.len() > 0 && s[0] >= 128 && leb_s_decode(s.skip(1)) is Some {
        lemma_leb_s_len_pos(s.skip(1));
    }
}

/// A little-endian 32-bit integer read from four bytes.
pub open spec fn le32(b0: u8, b1: u8, b2: u8, b3: u8) -> int {
    b0 + 256 * (b1 + 256 * (b2 + 256 * (b3 as int)))
}

/// In-memory cursor for the save format: reads advance `pos` through
/// `bytes`; writes append to `bytes`.
pub struct Serializer {
    pub bytes: Vec<u8>,
    pub pos: usize,
}

impl Serializer {
    pub open spec fn wf(self) -> bool {
        self.pos <= self.bytes@.len()
    }

    /// The bytes not yet consumed.
    pub open spec fn rest(self) -> Seq<u8> {
        self.bytes@.skip(self.pos as int)
    }

    pub fn new(bytes: Vec<u8>) -> (r: Self)
        ensures
            r.bytes@ == bytes@,
            r.pos == 0,
            r.wf(),
    {
        Serializer { bytes, pos: 0 }
    }

    pub fn read_byte(&mut self) -> (r: Result<u8, SaveError>)
        requires
            old(self).wf(),
        ensures
            final(self).wf(),
            final(self).bytes@ == old(self).bytes@,
            match r {
                Ok(b) => old(self).pos < old(self).bytes@.len() && b == old(self).bytes@[old(
                    self,
                ).pos as int] && final(self).pos == old(self).pos + 1,
                Err(e) => e == SaveError::UnexpectedEof && old(self).pos == old(
                    self,
                ).bytes@.len() && *final(self) == *old(self),
            },
    {
        if self.pos < self.bytes.len() {
            let b = self.bytes[self.pos];
            self.pos = self.pos + 1;
            Ok(b)
        } else {
            Err(SaveError::UnexpectedEof)
        }
    }

    pub fn read_bytes<const N: usize>(&mut self) -> (r: Result<[u8; N], SaveError>)
        requires
            old(self).wf(),
        ensures
            final(self).wf(),
            final(self).bytes@ == old(self).bytes@,
            match r {
                Ok(a) => old(self).pos + N <= old(self).bytes@.len() && a@ == old(
                    self,
                ).bytes@.subrange(old(self).pos as int, old(self).pos + N) && final(self).pos
                    == old(self).pos + N,
                Err(e) => e == SaveError::UnexpectedEof && old(self).pos + N > old(
                    self,
                ).bytes@.len() && *final(self) == *old(self),
            },
    {
        if N > self.bytes.len() - self.pos {
            return Err(SaveError::UnexpectedEof);
        }
        let mut out: [u8; N] = vstd::array::array_fill_for_copy_types(0u8);
        let mut i: usize = 0;
        while i < N
            invariant
                self.wf(),
                self == old(self),
                self.pos + N <= self.bytes@.len(),
                self.bytes@.len() <= usize::MAX,
                i <= N,
                out@.len() == N,
                forall|j: int| 0 <= j < i ==> out@[j] == self.bytes@[self.pos + j],
            decreases N - i,
        {
            out[i] = self.bytes[self.pos + i];
            i += 1;
        }
        self.pos = self.pos + N;
        proof {
            assert(out@ =~= old(self).bytes@.subrange(
                old(self).pos as int,
                old(self).pos + N,
            ));
        }
        Ok(out)
    }

    pub fn read_u32(&mut self) -> (r: Result<u32, SaveError>)
        requires
            old(self).wf(),
        ensures
            final(self).wf(),
            final(self).bytes@ == old(self).bytes@,
            match r {
                Ok(v) => old(self).pos + 4 <= old(self).bytes@.len() && v == le32(
                    old(self).bytes@[old(self).pos as int],
                    old(self).bytes@[old(self).pos + 1],
                    old(self).bytes@[old(self).pos + 2],
                    old(self).bytes@[old(self).pos + 3],
                ) && final(self).pos == old(self).pos + 4,
                Err(e) => e == SaveError::UnexpectedEof && old(self).pos + 4 > old(
                    self,
                ).bytes@.len() && *final(self) == *old(self),
            },
    {
        let a: [u8; 4] = match self.read_bytes::<4>() {
            Ok(a) => a,
            Err(e) => {
                return Err(e);
            },
        };
        let v = a[0] as u32 + 256 * (a[1] as u32) + 65536 * (a[2] as u32) + 16777216 * (
        a[3] as u32);
        Ok(v)
    }

    /// Read one unsigned variable-length integer, leaving the cursor after
    /// it; on any failure the cursor does not move.
    pub fn read_leb128_unsigned(&mut self) -> (r: Result<u64, SaveError>)
        requires
            old(self).wf(),
        ensures
            final(self).wf(),
            final(self).bytes@ == old(self).bytes@,
            match r {
                Ok(v) => {
                    &&& leb_u_ok(old(self).rest())
                    &&& v == leb_u_val(old(self).rest())
                    &&& final(self).pos == old(self).pos + leb_u_len(old(self).rest())
                },
                Err(e) => {
                    &&& *final(self) == *old(self)
                    &&& !leb_u_ok(old(self).rest())
                    &&& (e == SaveError::UnexpectedEof <==> (leb_u_decode(old(self).rest()) is None
                        && old(self).rest().len() < MAX_LEB_BYTES))
                    &&& (e == SaveError::UnexpectedEof || e == SaveError::Overflow)
                },
            },
    {
        let ghost rest0 = self.rest();
        let pos0 = self.pos;
        let len = self.bytes.len();
        let mut cnt: usize = 0;
        let mut acc: u128 = 0;
        let mut mult: u128 = 1;
        proof {
            assert(self.bytes@.skip(pos0 + 0) == rest0);
        }
        while cnt < MAX_LEB_BYTES
            invariant
                self.wf(),
                *self == *old(self),
                pos0 == self.pos,
                len == self.bytes@.len(),
                rest0 == self.rest(),
                cnt <= MAX_LEB_BYTES,
                pos0 + cnt <= len,
                mult == pow128(cnt as nat),
                mult <= 0x1_0000_0000_0000_0000_0000_0000_0000,
                acc < mult,
                leb_u_decode(rest0) == (match leb_u_decode(self.bytes@.skip(pos0 + cnt)) {
                    Some(p) => Some((acc + mult * p.0, cnt + p.1)),
                    None => None::<(int, int)>,
                }),
            decreases MAX_LEB_BYTES - cnt,
        {
            let ghost cur = self.bytes@.skip(pos0 + cnt);
            if pos0 + cnt >= len {
                proof {
                    assert(cur.len() == 0);
                    assert(rest0.len() == len - pos0);
                }
                return Err(SaveError::UnexpectedEof);
            }
            let b = self.bytes[pos0 + cnt];
            proof {
                assert(cur[0] == b);
                assert(cur.len() >= 1);
            }
            if b < 128 {
                proof {
                    assert(leb_u_decode(cur) == Some((b as int, 1int)));
                    assert(acc + mult * (b as int) < 0x100_0000_0000_0000_0000_0000_0000_0000)
                        by (nonlinear_arith)
                        requires
                            0 <= acc < mult,
                            mult <= 0x1_0000_0000_0000_0000_0000_0000_0000,
                            0 <= b < 128,
                    ;
                }
                let total: u128 = acc + mult * (b as u128);
                if total <= 0xFFFF_FFFF_FFFF_FFFF {
                    self.pos = pos0 + cnt + 1;
                    proof {
                        assert(leb_u_decode(rest0) == Some((total as int, cnt + 1)));
                    }
                    return Ok(total as u64);
                } else {
                    proof {
                        assert(leb_u_decode(rest0) == Some((total as int, cnt + 1)));
                    }
                    return Err(SaveError::Overflow);
                }
            }
            proof {
                assert(cur.skip(1) =~= self.bytes@.skip(pos0 + cnt + 1));
                lemma_pow128_mono((cnt + 1) as nat, 16);
                lemma_pow128_16();
                assert(pow128((cnt + 1) as nat) == 128 * mult);
                if leb_u_decode(cur.skip(1)) is Some {
                    let (v, n) = leb_u_decode(cur.skip(1))->Some_0;
                    assert(leb_u_decode(cur) == Some(((b - 128) + 128 * v, n + 1)));
                    assert(acc + mult * ((b - 128) + 128 * v) == (acc + mult * (b - 128)) + (128
                        * mult) * v) by (nonlinear_arith);
                } else {
                    assert(leb_u_decode(cur) is None);
                }
                assert(acc + mult * (b - 128) < 128 * mult) by (nonlinear_arith)
                    requires
                        0 <= acc < mult,
                        128 <= b < 256,
                ;
            }
            acc = acc + mult * ((b - 128) as u128);
            mult = mult * 128;
            cnt = cnt + 1;
        }
        proof {
            let cur = self.bytes@.skip(pos0 + cnt);
            if leb_u_decode(cur) is Some {
                let (v, n) = leb_u_decode(cur)->Some_0;
                lemma_leb_u_len_pos(cur);
            }
            assert(rest0.len() == len - pos0 >= MAX_LEB_BYTES);
        }
        Err(SaveError::Overflow)
    }

    /// Read one signed variable-length integer, leaving the cursor after
    /// it; on any failure the cursor does not move.
    pub fn read_leb128_signed(&mut self) -> (r: Result<i64, SaveError>)
        requires
            old(self).wf(),
        ensures
            final(self).wf(),
            final(self).bytes@ == old(self).bytes@,
            match r {
                Ok(v) => {
                    &&& leb_s_ok(old(self).rest())
                    &&& v == leb_s_val(old(self).rest())
                    &&& final(self).pos == old(self).pos + leb_s_len(old(self).rest())
                },
                Err(e) => {
                    &&& *final(self) == *old(self)
                    &&& !leb_s_ok(old(self).rest())
                    &&& (e == SaveError::UnexpectedEof <==> (leb_s_decode(old(self).rest()) is None
                        && old(self).rest().len() < MAX_LEB_BYTES))
                    &&& (e == SaveError::UnexpectedEof || e == SaveError::Overflow)
                },
            },
    {
        let ghost rest0 = self.rest();
        let pos0 = self.pos;
        let len = self.bytes.len();
        let mut cnt: usize = 0;
        let mut acc: u128 = 0;
        let mut mult: u128 = 1;
        proof {
            assert(self.bytes@.skip(pos0 + 0) == rest0);
        }
        while cnt < MAX_LEB_BYTES
            invariant
                self.wf(),
                *self == *old(self),
                pos0 == self.pos,
                len == self.bytes@.len(),
                rest0 == self.rest(),
                cnt <= MAX_LEB_BYTES,
                pos0 + cnt <= len,
                mult == pow128(cnt as nat),
                mult <= 0x1_0000_0000_0000_0000_0000_0000_0000,
                acc < mult,
                leb_s_decode(rest0) == (match leb_s_decode(self.bytes@.skip(pos0 + cnt)) {
                    Some(p) => Some((acc + mult * p.0, cnt + p.1)),
                    None => None::<(int, int)>,
                }),
            decreases MAX_LEB_BYTES - cnt,
        {
            let ghost cur = self.bytes@.skip(pos0 + cnt);
            if pos0 + cnt >= len {
                proof {
                    assert(cur.len() == 0);
                    assert(rest0.len() == len - pos0);
                }
                return Err(SaveError::UnexpectedEof);
            }
            let b = self.bytes[pos0 + cnt];
            proof {
                assert(cur[0] == b);
                assert(cur.len() >= 1);
            }
            if b < 128 {
                let sext: i128 = if b >= 64 {
                    b as i128 - 128
                } else {
                    b as i128
                };
                proof {
                    assert(leb_s_decode(cur) == Some((sext as int, 1int)));
                    assert(-0x100_0000_0000_0000_0000_0000_0000_0000 < acc + mult * sext
                        < 0x100_0000_0000_0000_0000_0000_0000_0000) by (nonlinear_arith)
                        requires
                            0 <= acc < mult,
                            mult <= 0x1_0000_0000_0000_0000_0000_0000_0000,
                            -128 <= sext < 128,
                    ;
                }
                let total: i128 = acc as i128 + (mult as i128) * sext;
                if -0x8000_0000_0000_0000 <= total && total <= 0x7FFF_FFFF_FFFF_FFFF {
                    self.pos = pos0 + cnt + 1;
                    proof {
                        assert(leb_s_decode(rest0) == Some((total as int, cnt + 1)));
                    }
                    return Ok(total as i64);
                } else {
                    proof {
                        assert(leb_s_decode(rest0) == Some((total as int, cnt + 1)));
                    }
                    return Err(SaveError::Overflow);
                }
            }
            proof {
                assert(cur.skip(1) =~= self.bytes@.skip(pos0 + cnt + 1));
                lemma_pow128_mono((cnt + 1) as nat, 16);
                lemma_pow128_16();
                assert(pow128((cnt + 1) as nat) == 128 * mult);
                if leb_s_decode(cur.skip(1)) is Some {
                    let (v, n) = leb_s_decode(cur.skip(1))->Some_0;
                    assert(leb_s_decode(cur) == Some(((b - 128) + 128 * v, n + 1)));
                    assert(acc + mult * ((b - 128) + 128 * v) == (acc + mult * (b - 128)) + (128
                        * mult) * v) by (nonlinear_arith);
                } else {
                    assert(leb_s_decode(cur) is None);
                }
                assert(acc + mult * (b - 128) < 128 * mult) by (nonlinear_arith)
                    requires
                        0 <= acc < mult,
                        128 <= b < 256,
                ;
            }
            acc = acc + mult * ((b - 128) as u128);
            mult = mult * 128;
            cnt = cnt + 1;
        }
        proof {
            let cur = self.bytes@.skip(pos0 + cnt);
            if leb_s_decode(cur) is Some {
                lemma_leb_s_len_pos(cur);
            }
            assert(rest0.len() == len - pos0 >= MAX_LEB_BYTES);
        }
        Err(SaveError::Overflow)
    }

    /// Append the unsigned variable-length encoding of `value`: at most ten
    /// bytes that decode back to `value` whatever follows them.
    pub fn write_leb128_unsigned(&mut self, value: u64) -> (r: Result<(), SaveError>)
        ensures
            r is Ok,
            final(self).pos == old(self).pos,
            old(self).bytes@.len() < final(self).bytes@.len() <= old(self).bytes@.len() + 10,
            final(self).bytes@.take(old(self).bytes@.len() as int) == old(self).bytes@,
            forall|ext: Seq<u8>| #[trigger] leb_u_decode(
                final(self).bytes@.skip(old(self).bytes@.len() as int) + ext,
            ) == Some((value as int, final(self).bytes@.len() - old(self).bytes@.len())),
    {
        let ghost start = self.bytes@;
        let mut v: u64 = value;
        let ghost mut acc: int = 0;
        let ghost mut mult: int = 1;
        let ghost mut cnt: nat = 0;
        proof {
            assert(self.bytes@.take(start.len() as int) =~= start);
            assert forall|ext: Seq<u8>| leb_u_decode(ext) is Some implies #[trigger] leb_u_decode(
                self.bytes@.skip(start.len() as int) + ext,
            ) == Some(
                (acc + mult * leb_u_decode(ext)->Some_0.0, cnt + leb_u_decode(ext)->Some_0.1),
            ) by {
                assert(self.bytes@.skip(start.len() as int) + ext =~= ext);
            }
        }
        while v >= 128
            invariant
                self.pos == old(self).pos,
                self.bytes@.len() == start.len() + cnt,
                self.bytes@.take(start.len() as int) == start,
                mult == pow128(cnt),
                0 <= acc < mult,
                acc + mult * v == value,
                v >= 1 ==> mult <= value,
                v >= 1 || cnt == 0,
                forall|ext: Seq<u8>|
                    leb_u_decode(ext) is Some ==> #[trigger] leb_u_decode(
                        self.bytes@.skip(start.len() as int) + ext,
                    ) == Some(
                        (
                            acc + mult * leb_u_decode(ext)->Some_0.0,
                            cnt + leb_u_decode(ext)->Some_0.1,
                        ),
                    ),
            decreases v,
        {
            let low = (v % 128) as u8;
            let ghost pre_delta = self.bytes@.skip(start.len() as int);
            self.bytes.push(low + 128);
            let ghost b = (low + 128) as u8;
            proof {
                let delta = self.bytes@.skip(start.len() as int);
                assert(delta =~= pre_delta.push(b));
                assert(self.bytes@.take(start.len() as int) =~= start);
                assert forall|ext: Seq<u8>| leb_u_decode(ext) is Some implies #[trigger]
                leb_u_decode(delta + ext) == Some(
                    (
                        (acc + mult * (b - 128)) + (128 * mult) * leb_u_decode(ext)->Some_0.0,
                        (cnt + 1) + leb_u_decode(ext)->Some_0.1,
                    ),
                ) by {
                    let (w, n) = leb_u_decode(ext)->Some_0;
                    let ext2 = seq![b] + ext;
                    assert(delta + ext =~= pre_delta + ext2);
                    assert(ext2[0] == b && ext2.len() >= 1 && ext2.skip(1) =~= ext);
                    assert(leb_u_decode(ext2) == Some(((b - 128) + 128 * w, n + 1)));
                    assert(leb_u_decode(pre_delta + ext2) == Some(
                        (acc + mult * ((b - 128) + 128 * w), cnt + (n + 1)),
                    ));
                    assert(acc + mult * ((b - 128) + 128 * w) == (acc + mult * (b - 128)) + (128
                        * mult) * w) by (nonlinear_arith);
                }
                assert(acc + mult * (b - 128) + (128 * mult) * (v as int / 128) == value)
                    by (nonlinear_arith)
                    requires
                        acc + mult * v == value,
                        b - 128 == v as int % 128,
                        v >= 0,
                ;
                assert(acc + mult * (b - 128) < 128 * mult) by (nonlinear_arith)
                    requires
                        0 <= acc < mult,
                        0 <= b - 128 < 128,
                ;
                assert(128 * mult <= (128 * mult) * (v as int / 128)) by (nonlinear_arith)
                    requires
                        v >= 128,
                        mult >= 1,
                ;
                acc = acc + mult * (b - 128);
                mult = 128 * mult;
                cnt = cnt + 1;
            }
            v = v / 128;
        }
        let ghost pre_delta = self.bytes@.skip(start.len() as int);
        self.bytes.push(v as u8);
        proof {
            assert(cnt <= 9) by {
                if cnt >= 10 {
                    lemma_pow128_mono(10, cnt);
                    lemma_pow128_16();
                    assert(false);
                }
            }
            let delta = self.bytes@.skip(start.len() as int);
            let b = v as u8;
            assert(delta =~= pre_delta.push(b));
            assert(self.bytes@.take(start.len() as int) =~= start);
            assert forall|ext: Seq<u8>| true implies #[trigger] leb_u_decode(delta + ext) == Some(
                (value as int, delta.len() as int),
            ) by {
                let ext2 = seq![b] + ext;
                assert(delta + ext =~= pre_delta + ext2);
                assert(ext2[0] == b && ext2.len() >= 1);
                assert(leb_u_decode(ext2) == Some((b as int, 1int)));
                assert(leb_u_decode(pre_delta + ext2) == Some((acc + mult * b, cnt as int + 1)));
            }
        }
        Ok(())
    }

    /// Append the signed variable-length encoding of `value`: at most ten
    /// bytes that decode back to `value` whatever follows them.
    pub fn write_leb128_signed(&mut self, value: i64) -> (r: Result<(), SaveError>)
        ensures
            r is Ok,
            final(self).pos == old(self).pos,
            old(self).bytes@.len() < final(self).bytes@.len() <= old(self).bytes@.len() + 10,
            final(self).bytes@.take(old(self).bytes@.len() as int) == old(self).bytes@,
            forall|ext: Seq<u8>| #[trigger] leb_s_decode(
                final(self).bytes@.skip(old(self).bytes@.len() as int) + ext,
            ) == Some((value as int, final(self).bytes@.len() - old(self).bytes@.len())),
    {
        let ghost start = self.bytes@;
        let mut v: i64 = value;
        let ghost mut acc: int = 0;
        let ghost mut mult: int = 1;
        let ghost mut cnt: nat = 0;
        proof {
            assert(self.bytes@.take(start.len() as int) =~= start);
            assert forall|ext: Seq<u8>| leb_s_decode(ext) is Some implies #[trigger] leb_s_decode(
                self.bytes@.skip(start.len() as int) + ext,
            ) == Some(
                (acc + mult * leb_s_decode(ext)->Some_0.0, cnt + leb_s_decode(ext)->Some_0.1),
            ) by {
                assert(self.bytes@.skip(start.len() as int) + ext =~= ext);
            }
        }
        loop
            invariant
                start == old(self).bytes@,
                self.pos == old(self).pos,
                self.bytes@.len() == start.len() + cnt,
                self.bytes@.take(start.len() as int) == start,
                mult == pow128(cnt),
                0 <= acc < mult,
                acc + mult * v == value,
                cnt <= 9,
                forall|ext: Seq<u8>|
                    leb_s_decode(ext) is Some ==> #[trigger] leb_s_decode(
                        self.bytes@.skip(start.len() as int) + ext,
                    ) == Some(
                        (
                            acc + mult * leb_s_decode(ext)->Some_0.0,
                            cnt + leb_s_decode(ext)->Some_0.1,
                        ),
                    ),
            decreases (if v >= 0 {
                v as int
            } else {
                -1 - v
            }),
        {
            let low: u8 = v.checked_rem_euclid(128).unwrap() as u8;
            let v2: i64 = v.checked_div_euclid(128).unwrap();
            let done = (v2 == 0 && low < 64) || (v2 == -1 && low >= 64);
            let ghost pre_delta = self.bytes@.skip(start.len() as int);
            proof {
                assert(128 * (v2 as int) + low == v) by {
                    vstd::arithmetic::div_mod::lemma_fundamental_div_mod(v as int, 128);
                }
            }
            if done {
                self.bytes.push(low);
                proof {
                    let delta = self.bytes@.skip(start.len() as int);
                    let b = low;
                    let sext: int = if b >= 64 {
                        b - 128
                    } else {
                        b as int
                    };
                    assert(sext == v as int);
                    assert(delta =~= pre_delta.push(b));
                    assert(self.bytes@.take(start.len() as int) =~= start);
                    assert forall|ext: Seq<u8>| true implies #[trigger] leb_s_decode(delta + ext)
                        == Some((value as int, delta.len() as int)) by {
                        let ext2 = seq![b] + ext;
                        assert(delta + ext =~= pre_delta + ext2);
                        assert(ext2[0] == b && ext2.len() >= 1);
                        assert(leb_s_decode(ext2) == Some((sext, 1int)));
                        assert(leb_s_decode(pre_delta + ext2) == Some(
                            (acc + mult * sext, cnt as int + 1),
                        ));
                    }
                }
                return Ok(());
            }
            self.bytes.push(low + 128);
            proof {
                let b = (low + 128) as u8;
                let delta = self.bytes@.skip(start.len() as int);
                assert(delta =~= pre_delta.push(b));
                assert(self.bytes@.take(start.len() as int) =~= start);
                assert forall|ext: Seq<u8>| leb_s_decode(ext) is Some implies #[trigger]
                leb_s_decode(delta + ext) == Some(
                    (
                        (acc + mult * low) + (128 * mult) * leb_s_decode(ext)->Some_0.0,
                        (cnt + 1) + leb_s_decode(ext)->Some_0.1,
                    ),
                ) by {
                    let (w, n) = leb_s_decode(ext)->Some_0;
                    let ext2 = seq![b] + ext;
                    assert(delta + ext =~= pre_delta + ext2);
                    assert(ext2[0] == b && ext2.len() >= 1 && ext2.skip(1) =~= ext);
                    assert(leb_s_decode(ext2) == Some(((b - 128) + 128 * w, n + 1)));
                    assert(leb_s_decode(pre_delta + ext2) == Some(
                        (acc + mult * ((b - 128) + 128 * w), cnt + (n + 1)),
                    ));
                    assert(acc + mult * ((b - 128) + 128 * w) == (acc + mult * (b - 128)) + (128
                        * mult) * w) by (nonlinear_arith);
                }
                assert(acc + mult * low + (128 * mult) * v2 == value) by (nonlinear_arith)
                    requires
                        acc + mult * v == value,
                        v == 128 * (v2 as int) + low,
                ;
                assert(acc + mult * low < 128 * mult) by (nonlinear_arith)
                    requires
                        0 <= acc < mult,
                        0 <= low < 128,
                ;
                // After nine continuation bytes the scaled remainder can only
                // be 0 or -1, and both terminate, so a tenth never happens.
                assert(cnt + 1 <= 9) by {
                    if cnt >= 9 {
                        lemma_pow128_mono(9, cnt);
                        lemma_pow128_16();
                        assert(v == 0 || v == -1) by (nonlinear_arith)
                            requires
                                acc + mult * v == value,
                                0 <= acc < mult,
                                -0x8000_0000_0000_0000 <= value < 0x8000_0000_0000_0000,
                                mult >= 0x8000_0000_0000_0000,
                        ;
                        assert(false);
                    }
                }
                acc = acc + mult * low;
                mult = 128 * mult;
                cnt = cnt + 1;
            }
            proof {
                assert((if v2 >= 0 {
                    v2 as int
                } else {
                    -1 - v2
                }) < (if v >= 0 {
                    v as int
                } else {
                    -1 - v
                })) by (nonlinear_arith)
                    requires
                        v == 128 * (v2 as int) + low,
                        0 <= low < 128,
                        !((v2 == 0 && low < 64) || (v2 == -1 && low >= 64)),
                ;
            }
            v = v2;
        }
    }

    pub fn write_byte(&mut self, byte: u8) -> (r: Result<(), SaveError>)
        ensures
            r is Ok,
            final(self).bytes@ == old(self).bytes@.push(byte),
            final(self).pos == old(self).pos,
    {
        self.bytes.push(byte);
        Ok(())
    }

    pub fn write_bytes<const N: usize>(&mut self, bytes: [u8; N]) -> (r: Result<(), SaveError>)
        ensures
            r is Ok,
            final(self).bytes@ == old(self).bytes@ + bytes@,
            final(self).pos == old(self).pos,
    {
        let mut i: usize = 0;
        while i < N
            invariant
                i <= N,
                bytes@.len() == N,
                self.bytes@ == old(self).bytes@ + bytes@.take(i as int),
                self.pos == old(self).pos,
            decreases N - i,
        {
            proof {
                assert(bytes@.take(i + 1) == bytes@.take(i as int).push(bytes@[i as int]));
            }
            self.bytes.push(bytes[i]);
            i += 1;
        }
        proof {
            assert(bytes@.take(N as int) == bytes@);
        }
        Ok(())
    }

    pub fn write_u32(&mut self, val: u32) -> (r: Result<(), SaveError>)
        ensures
            r is Ok,
            final(self).bytes@.len() == old(self).bytes@.len() + 4,
            final(self).bytes@ == old(self).bytes@ + seq![
                (val % 256) as u8,
                ((val / 256) % 256) as u8,
                ((val / 65536) % 256) as u8,
                ((val / 16777216) % 256) as u8,
            ],
            le32(
                (val % 256) as u8,
                ((val / 256) % 256) as u8,
                ((val / 65536) % 256) as u8,
                ((val / 16777216) % 256) as u8,
            ) == val,
            final(self).pos == old(self).pos,
    {
        let a: [u8; 4] = [
            (val % 256) as u8,
            ((val / 256) % 256) as u8,
            ((val / 65536) % 256) as u8,
            ((val / 16777216) % 256) as u8,
        ];
        let r = self.write_bytes(a);
        proof {
            assert(a@ =~= seq![
                (val % 256) as u8,
                ((val / 256) % 256) as u8,
                ((val / 65536) % 256) as u8,
                ((val / 16777216) % 256) as u8,
            ]);
            assert(le32(
                (val % 256) as u8,
                ((val / 256) % 256) as u8,
                ((val / 65536) % 256) as u8,
                ((val / 16777216) % 256) as u8,
            ) == val) by (nonlinear_arith);
        }
        r
    }
}


/// `v` fits a 32-bit signed coordinate.
pub open spec fn i32_range(v: int) -> bool {
    i32::MIN <= v <= i32::MAX
}

/// Parse of the save file's voxel list: records of three signed
/// variable-length coordinates and one kind byte, until a clean end of
/// stream; anything else malformed is a corrupt file, not a shorter list.
pub open spec fn spec_parse_records(s: Seq<u8>) -> Option<Seq<(VoxelPosition, VoxelKind)>>
    decreases s.len(),
{
    if s.len() == 0 {
        Some(Seq::empty())
    } else if !(leb_s_ok(s) && i32_range(leb_s_val(s)) && 1 <= leb_s_len(s) <= s.len()) {
        None
    } else {
        let x = leb_s_val(s);
        let s1 = s.skip(leb_s_len(s));
        if !(leb_s_ok(s1) && i32_range(leb_s_val(s1)) && 1 <= leb_s_len(s1) <= s1.len()) {
            None
        } else {
            let y = leb_s_val(s1);
            let s2 = s1.skip(leb_s_len(s1));
            if !(leb_s_ok(s2) && i32_range(leb_s_val(s2)) && 1 <= leb_s_len(s2) <= s2.len()) {
                None
            } else {
                let z = leb_s_val(s2);
                let s3 = s2.skip(leb_s_len(s2));
                if s3.len() == 0 {
                    None
                } else {
                    match spec_byte_kind(s3[0]) {
                        Option::None => None,
                        Option::Some(k) => match spec_parse_records(s3.skip(1)) {
                            Option::None => None,
                            Option::Some(tail) => Some(
                                seq![
                                    (VoxelPosition { x: x as i32, y: y as i32, z: z as i32 }, k),
                                ] + tail,
                            ),
                        },
                    }
                }
            }
        }
    }
}

/// Parse of a whole save stream: seed, world extent, then the voxel list.
pub open spec fn spec_parse_save(s: Seq<u8>) -> Option<
    (u32, u64, u64, Seq<(VoxelPosition, VoxelKind)>),
> {
    if s.len() < 4 {
        None
    } else {
        let seed = le32(s[0], s[1], s[2], s[3]);
        let s1 = s.skip(4);
        if !(leb_u_ok(s1) && 1 <= leb_u_len(s1) <= s1.len()) {
            None
        } else {
            let w = leb_u_val(s1);
            let s2 = s1.skip(leb_u_len(s1));
            if !(leb_u_ok(s2) && 1 <= leb_u_len(s2) <= s2.len()) {
                None
            } else {
                let l = leb_u_val(s2);
                let s3 = s2.skip(leb_u_len(s2));
                match spec_parse_records(s3) {
                    Option::None => None,
                    Option::Some(vs) => Some((seed as u32, w as u64, l as u64, vs)),
                }
            }
        }
    }
}

/// A saved world: the seed it was generated from, its extent in chunks, and
/// only the voxels whose kind differs from what the generator would produce
/// for that seed.
pub struct SaveData {
    pub seed: u32,
    pub width: u64,
    pub length: u64,
    pub voxels: Vec<(VoxelPosition, VoxelKind)>,
}

impl SaveData {
    /// Decode a save stream; a malformed stream yields an error and no data,
    /// so loading is all-or-nothing.
    pub fn from_bytes(bytes: &[u8]) -> (r: Result<SaveData, SaveError>)
        ensures
            match r {
                Ok(sd) => spec_parse_save(bytes@) == Some(
                    (sd.seed, sd.width, sd.length, sd.voxels@),
                ),
                Err(_) => spec_parse_save(bytes@) is None,
            },
    {
        let mut data: Vec<u8> = Vec::new();
        let mut i: usize = 0;
        while i < bytes.len()
            invariant
                i <= bytes@.len(),
                data@ == bytes@.take(i as int),
            decreases bytes@.len() - i,
        {
            proof {
                assert(bytes@.take(i + 1) == bytes@.take(i as int).push(bytes@[i as int]));
            }
            data.push(bytes[i]);
            i += 1;
        }
        proof {
            assert(bytes@.take(bytes@.len() as int) == bytes@);
        }
        let mut ser = Serializer::new(data);
        let seed = match ser.read_u32() {
            Ok(v) => v,
            Err(e) => {
                return Err(e);
            },
        };
        proof {
            assert(ser.rest() =~= bytes@.skip(4));
            assert(le32(bytes@[0], bytes@[1], bytes@[2], bytes@[3]) == seed);
        }
        let ghost s1 = bytes@.skip(4);
        let width = match ser.read_leb128_unsigned() {
            Ok(v) => v,
            Err(e) => {
                return Err(e);
            },
        };
        proof {
            lemma_leb_u_len_pos(s1);
            assert(ser.rest() =~= s1.skip(leb_u_len(s1)));
        }
        let ghost s2 = s1.skip(leb_u_len(s1));
        let length = match ser.read_leb128_unsigned() {
            Ok(v) => v,
            Err(e) => {
                return Err(e);
            },
        };
        proof {
            lemma_leb_u_len_pos(s2);
            assert(ser.rest() =~= s2.skip(leb_u_len(s2)));
        }
        let ghost s3 = s2.skip(leb_u_len(s2));
        let mut voxels: Vec<(VoxelPosition, VoxelKind)> = Vec::new();
        while ser.pos < ser.bytes.len()
            invariant
                ser.wf(),
                ser.bytes@ == bytes@,
                s3 == bytes@.skip(4).skip(leb_u_len(bytes@.skip(4))).skip(
                    leb_u_len(bytes@.skip(4).skip(leb_u_len(bytes@.skip(4)))),
                ),
                spec_parse_save(bytes@) is None <== spec_parse_records(s3) is None,
                match spec_parse_records(ser.rest()) {
                    Option::Some(tail) => spec_parse_records(s3) == Some(voxels@ + tail),
                    Option::None => spec_parse_records(s3) is None,
                },
            decreases ser.bytes@.len() - ser.pos,
        {
            let ghost rec = ser.rest();
            proof {
                assert(rec.len() > 0);
            }
            let x = match ser.read_leb128_signed() {
                Ok(v) => v,
                Err(e) => {
                    return Err(e);
                },
            };
            if x < i32::MIN as i64 || x > i32::MAX as i64 {
                return Err(SaveError::Overflow);
            }
            proof {
                lemma_leb_s_len_pos(rec);
                assert(ser.rest() =~= rec.skip(leb_s_len(rec)));
            }
            let ghost rec1 = rec.skip(leb_s_len(rec));
            let y = match ser.read_leb128_signed() {
                Ok(v) => v,
                Err(e) => {
                    return Err(e);
                },
            };
            if y < i32::MIN as i64 || y > i32::MAX as i64 {
                return Err(SaveError::Overflow);
            }
            proof {
                lemma_leb_s_len_pos(rec1);
                assert(ser.rest() =~= rec1.skip(leb_s_len(rec1)));
            }
            let ghost rec2 = rec1.skip(leb_s_len(rec1));
            let z = match ser.read_leb128_signed() {
                Ok(v) => v,
                Err(e) => {
                    return Err(e);
                },
            };
            if z < i32::MIN as i64 || z > i32::MAX as i64 {
                return Err(SaveError::Overflow);
            }
            proof {
                lemma_leb_s_len_pos(rec2);
                assert(ser.rest() =~= rec2.skip(leb_s_len(rec2)));
            }
            let ghost rec3 = rec2.skip(leb_s_len(rec2));
            let kind_byte = match ser.read_byte() {
                Ok(b) => b,
                Err(e) => {
                    return Err(e);
                },
            };
            let kind = match VoxelKind::from_byte(kind_byte) {
                Some(k) => k,
                None => {
                    return Err(SaveError::BadVoxelKind);
                },
            };
            proof {
                assert(rec3[0] == kind_byte);
                assert(ser.rest() =~= rec3.skip(1));
            }
            let pos = VoxelPosition::new(x as i32, y as i32, z as i32);
            voxels.push((pos, kind));
            proof {
                assert(spec_parse_records(rec) == (match spec_parse_records(rec3.skip(1)) {
                    Option::None => None::<Seq<(VoxelPosition, VoxelKind)>>,
                    Option::Some(tail) => Some(seq![(pos, kind)] + tail),
                }));
                if spec_parse_records(ser.rest()) is Some {
                    let tail = spec_parse_records(ser.rest())->Some_0;
                    assert(voxels@ + tail =~= voxels@.drop_last() + (seq![(pos, kind)] + tail));
                }
            }
        }
        proof {
            assert(ser.rest().len() == 0);
            assert(spec_parse_records(ser.rest()) == Some(
                Seq::<(VoxelPosition, VoxelKind)>::empty(),
            ));
            assert(voxels@ + Seq::<(VoxelPosition, VoxelKind)>::empty() == voxels@);
        }
        Ok(SaveData { seed, width, length, voxels })
    }

    /// Encode this save so that parsing the bytes yields exactly its
    /// contents back — the codec half of the save round trip.
    #[verifier::rlimit(80)]
    pub fn to_bytes(&self) -> (r: Vec<u8>)
        ensures
            spec_parse_save(r@) == Some((self.seed, self.width, self.length, self.voxels@)),
    {
        let mut ser = Serializer::new(Vec::new());
        let _ = ser.write_u32(self.seed);
        let ghost b1 = ser.bytes@;
        let _ = ser.write_leb128_unsigned(self.width);
        let ghost b2 = ser.bytes@;
        let _ = ser.write_leb128_unsigned(self.length);
        let ghost header = ser.bytes@;
        proof {
            assert(b1.len() == 4);
            assert(header.take(4) =~= b1);
            assert forall|ext: Seq<u8>| #[trigger] leb_u_decode(
                header.skip(4).take(b2.len() - 4) + ext,
            ) == Some((self.width as int, b2.len() - 4)) by {
                assert(header.skip(4).take(b2.len() - 4) + ext =~= b2.skip(b1.len() as int) + ext);
            }
            lemma_parse_save_header(header, self.seed, self.width, self.length, b2.len() as int);
            assert(header.skip(header.len() as int) =~= Seq::<u8>::empty());
        }
        let mut i: usize = 0;
        while i < self.voxels.len()
            invariant
                i <= self.voxels@.len(),
                ser.pos == 0,
                header.len() <= ser.bytes@.len(),
                ser.bytes@.take(header.len() as int) == header,
                forall|ext: Seq<u8>| #[trigger] spec_parse_save(header + ext) == (
                match spec_parse_records(ext) {
                    Option::None => None::<(u32, u64, u64, Seq<(VoxelPosition, VoxelKind)>)>,
                    Option::Some(vs) => Some((self.seed, self.width, self.length, vs)),
                }),
                forall|ext: Seq<u8>| #[trigger] spec_parse_records(
                    ser.bytes@.skip(header.len() as int) + ext,
                ) == (match spec_parse_records(ext) {
                    Option::None => None::<Seq<(VoxelPosition, VoxelKind)>>,
                    Option::Some(tail) => Some(self.voxels@.take(i as int) + tail),
                }),
            decreases self.voxels@.len() - i,
        {
            let (p, k) = self.voxels[i];
            let ghost recs = ser.bytes@.skip(header.len() as int);
            let ghost base = ser.bytes@.len();
            let _ = ser.write_leb128_signed(p.x() as i64);
            let ghost c1 = ser.bytes@;
            let _ = ser.write_leb128_signed(p.y() as i64);
            let ghost c2 = ser.bytes@;
            let _ = ser.write_leb128_signed(p.z() as i64);
            let ghost c3 = ser.bytes@;
            let _ = ser.write_byte(k.to_byte());
            proof {
                let d1 = c1.skip(base as int);
                let d2 = c2.skip(c1.len() as int);
                let d3 = c3.skip(c2.len() as int);
                assert forall|ext: Seq<u8>| #[trigger] leb_s_decode(d1 + ext) == Some(
                    (p.x as int, d1.len() as int),
                ) by {
                    assert(d1 + ext =~= c1.skip(base as int) + ext);
                }
                lemma_parse_record_chain(d1, d2, d3, p, k);
                let newrecs = ser.bytes@.skip(header.len() as int);
                let delta = d1 + d2 + d3 + seq![spec_kind_byte(k)];
                assert(ser.bytes@.take(header.len() as int) =~= header);
                assert(newrecs =~= recs + delta);
                assert forall|ext: Seq<u8>| #[trigger] spec_parse_records(newrecs + ext) == (
                match spec_parse_records(ext) {
                    Option::None => None::<Seq<(VoxelPosition, VoxelKind)>>,
                    Option::Some(tail) => Some(self.voxels@.take(i + 1) + tail),
                }) by {
                    assert(newrecs + ext =~= recs + (delta + ext));
                    if spec_parse_records(ext) is Some {
                        let tail = spec_parse_records(ext)->Some_0;
                        assert(spec_parse_records(delta + ext) == Some(seq![(p, k)] + tail));
                        assert(self.voxels@.take(i as int) + (seq![(p, k)] + tail)
                            =~= self.voxels@.take(i + 1) + tail);
                    }
                }
            }
            i += 1;
        }
        proof {
            let recs = ser.bytes@.skip(header.len() as int);
            assert(spec_parse_records(Seq::<u8>::empty()) == Some(Seq::<(
                VoxelPosition,
                VoxelKind,
            )>::empty()));
            assert(recs + Seq::<u8>::empty() =~= recs);
            assert(self.voxels@.take(self.voxels@.len() as int) + Seq::<(
                VoxelPosition,
                VoxelKind,
            )>::empty() =~= self.voxels@);
            assert(header + recs =~= ser.bytes@);
        }
        let Serializer { bytes, pos: _ } = ser;
        bytes
    }
}

/// A header of seed and extents followed by any byte tail parses to that
/// seed and those extents with the tail's records.
proof fn lemma_parse_save_header(header: Seq<u8>, seed: u32, width: u64, length: u64, mid: int)
    requires
        header.len() >= 4,
        le32(header[0], header[1], header[2], header[3]) == seed,
        forall|ext: Seq<u8>| #[trigger] leb_u_decode(header.skip(4).take(mid - 4) + ext) == Some(
            (width as int, mid - 4),
        ),
        4 < mid < header.len(),
        mid - 4 <= MAX_LEB_BYTES,
        header.len() - mid <= MAX_LEB_BYTES,
        forall|ext: Seq<u8>| #[trigger] leb_u_decode(header.skip(mid) + ext) == Some(
            (length as int, header.len() - mid),
        ),
    ensures
        forall|ext: Seq<u8>| #[trigger] spec_parse_save(header + ext) == (
        match spec_parse_records(ext) {
            Option::None => None::<(u32, u64, u64, Seq<(VoxelPosition, VoxelKind)>)>,
            Option::Some(vs) => Some((seed, width, length, vs)),
        }),
{
    assert forall|ext: Seq<u8>| #[trigger] spec_parse_save(header + ext) == (
    match spec_parse_records(ext) {
        Option::None => None::<(u32, u64, u64, Seq<(VoxelPosition, VoxelKind)>)>,
        Option::Some(vs) => Some((seed, width, length, vs)),
    }) by {
        let s = header + ext;
        assert(s.len() >= 4);
        assert(s[0] == header[0] && s[1] == header[1] && s[2] == header[2] && s[3] == header[3]);
        let s1 = s.skip(4);
        assert(s1 =~= header.skip(4).take(mid - 4) + (header.skip(mid) + ext));
        assert(leb_u_decode(s1) == Some((width as int, mid - 4)));
        let s2 = s1.skip(mid - 4);
        assert(s2 =~= header.skip(mid) + ext);
        assert(leb_u_decode(s2) == Some((length as int, header.len() - mid)));
        let s3 = s2.skip(header.len() - mid);
        assert(s3 =~= ext);
    }
}

/// Three signed coordinates and a kind byte followed by any tail parse as
/// one record followed by the tail's records.
#[verifier::rlimit(100)]
proof fn lemma_parse_record_chain(
    d1: Seq<u8>,
    d2: Seq<u8>,
    d3: Seq<u8>,
    p: VoxelPosition,
    k: VoxelKind,
)
    requires
        forall|ext: Seq<u8>| #[trigger] leb_s_decode(d1 + ext) == Some((p.x as int, d1.len() as int)),
        forall|ext: Seq<u8>| #[trigger] leb_s_decode(d2 + ext) == Some((p.y as int, d2.len() as int)),
        forall|ext: Seq<u8>| #[trigger] leb_s_decode(d3 + ext) == Some((p.z as int, d3.len() as int)),
        1 <= d1.len() <= MAX_LEB_BYTES,
        1 <= d2.len() <= MAX_LEB_BYTES,
        1 <= d3.len() <= MAX_LEB_BYTES,
    ensures
        forall|ext: Seq<u8>| #[trigger] spec_parse_records((d1 + d2 + d3 + seq![spec_kind_byte(k)])
            + ext) == (match spec_parse_records(ext) {
            Option::None => None::<Seq<(VoxelPosition, VoxelKind)>>,
            Option::Some(tail) => Some(seq![(p, k)] + tail),
        }),
{
    assert forall|ext: Seq<u8>| #[trigger] spec_parse_records((d1 + d2 + d3 + seq![
        spec_kind_byte(k),
    ]) + ext) == (match spec_parse_records(ext) {
        Option::None => None::<Seq<(VoxelPosition, VoxelKind)>>,
        Option::Some(tail) => Some(seq![(p, k)] + tail),
    }) by {
        let s = (d1 + d2 + d3 + seq![spec_kind_byte(k)]) + ext;
        assert(s =~= d1 + (d2 + d3 + seq![spec_kind_byte(k)] + ext));
        assert(leb_s_decode(s) == Some((p.x as int, d1.len() as int)));
        assert(s.len() > 0);
        let s1 = s.skip(d1.len() as int);
        assert(s1 =~= d2 + (d3 + seq![spec_kind_byte(k)] + ext));
        assert(leb_s_decode(s1) == Some((p.y as int, d2.len() as int)));
        let s2 = s1.skip(d2.len() as int);
        assert(s2 =~= d3 + (seq![spec_kind_byte(k)] + ext));
        assert(leb_s_decode(s2) == Some((p.z as int, d3.len() as int)));
        let s3 = s2.skip(d3.len() as int);
        assert(s3 =~= seq![spec_kind_byte(k)] + ext);
        assert(s3.len() > 0);
        assert(s3[0] == spec_kind_byte(k));
        crate::voxel::lemma_kind_byte_round_trip(k);
        assert(s3.skip(1) =~= ext);
        assert(p == (VoxelPosition { x: p.x as i32, y: p.y as i32, z: p.z as i32 }));
    }
}


/// The generator's deterministic output at a world position.
pub open spec fn spec_generated(noise: NoiseField, p: VoxelPosition) -> VoxelKind {
    spec_block_at(p.y as int, noise.spec_sample(p.x as int, p.z as int))
}

/// Chunk position `cp` owns world position `p`.
pub open spec fn chunk_owns(cp: ChunkPosition, p: VoxelPosition) -> bool {
    &&& cp.x <= p.x < cp.x + 16
    &&& 0 <= p.y < 256
    &&& cp.z <= p.z < cp.z + 16
}

/// The chunk's live kind at a world position it owns.
pub open spec fn spec_live(cp: ChunkPosition, chunk: ChunkVoxels, p: VoxelPosition) -> VoxelKind {
    chunk.spec_voxel(p.x - cp.x, p.y as int, p.z - cp.z).kind
}

/// A chunk position whose footprint the noise field covers and whose
/// coordinates leave room for local offsets.
pub open spec fn chunk_args_ok(cp: ChunkPosition, noise: NoiseField) -> bool {
    &&& cp.wf()
    &&& cp.x + 16 <= i32::MAX
    &&& cp.z + 16 <= i32::MAX
    &&& forall|x: int, z: int|
        0 <= x < 16 && 0 <= z < 16 ==> #[trigger] noise.in_bounds(cp.x + x, cp.z + z)
}

/// A world position is owned by at most one chunk-grid position.
pub proof fn lemma_owner_unique(c1: ChunkPosition, c2: ChunkPosition, p: VoxelPosition)
    requires
        c1.wf(),
        c2.wf(),
        chunk_owns(c1, p),
        chunk_owns(c2, p),
    ensures
        c1 == c2,
{
    lemma_owned_coord(c1.x as int, p.x as int);
    lemma_owned_coord(c2.x as int, p.x as int);
    lemma_owned_coord(c1.z as int, p.z as int);
    lemma_owned_coord(c2.z as int, p.z as int);
}

/// A grid coordinate owning `v` is `v` rounded down to the grid.
proof fn lemma_owned_coord(c: int, v: int)
    requires
        c % 16 == 0,
        c <= v < c + 16,
    ensures
        c == v - v % 16,
{
    vstd::arithmetic::div_mod::lemma_fundamental_div_mod(c, 16);
    vstd::arithmetic::div_mod::lemma_mod_multiples_vanish(c / 16, v - c, 16);
    vstd::arithmetic::div_mod::lemma_small_mod((v - c) as nat, 16);
}

/// Append every voxel of one chunk whose kind differs from the generator's
/// output, with its world position.
fn diff_chunk(
    cp: ChunkPosition,
    chunk: &ChunkVoxels,
    noise: &NoiseField,
    out: &mut Vec<(VoxelPosition, VoxelKind)>,
)
    requires
        chunk.wf(),
        noise.wf(),
        chunk_args_ok(cp, *noise),
    ensures
        final(out)@.len() >= old(out)@.len(),
        forall|n: int| 0 <= n < old(out)@.len() ==> final(out)@[n] == old(out)@[n],
        forall|n: int|
            old(out)@.len() <= n < final(out)@.len() ==> {
                let (p, k) = #[trigger] final(out)@[n];
                &&& chunk_owns(cp, p)
                &&& k == spec_live(cp, *chunk, p)
                &&& k != spec_generated(*noise, p)
            },
        forall|x: int, y: int, z: int|
            #[trigger] local_in_range(x, y, z) && chunk.spec_voxel(x, y, z).kind != spec_block_at(
                y,
                noise.spec_sample(cp.x + x, cp.z + z),
            ) ==> exists|n: int|
                old(out)@.len() <= n < final(out)@.len() && #[trigger] final(out)@[n] == (
                VoxelPosition { x: (cp.x + x) as i32, y: y as i32, z: (cp.z + z) as i32 },
                chunk.spec_voxel(x, y, z).kind,
                ),
        forall|n: int, m: int|
            old(out)@.len() <= n < m < final(out)@.len() ==> (#[trigger] final(out)@[n]).0 != (
            #[trigger] final(out)@[m]).0,
{
    let ghost base = out@.len() as int;
    let mut x: usize = 0;
    while x < 16
        invariant
            chunk.wf(),
            noise.wf(),
            chunk_args_ok(cp, *noise),
            x <= 16,
            base <= out@.len(),
            forall|n: int| 0 <= n < base ==> out@[n] == old(out)@[n],
            base == old(out)@.len(),
            forall|n: int|
                base <= n < out@.len() ==> {
                    let (p, k) = #[trigger] out@[n];
                    &&& chunk_owns(cp, p)
                    &&& k == spec_live(cp, *chunk, p)
                    &&& k != spec_generated(*noise, p)
                    &&& (p.x - cp.x < x || (p.x - cp.x == x))
                    &&& (p.x - cp.x, p.y as int, p.z - cp.z) != (p.x - cp.x, p.y as int, p.z - cp.z)
                        || p.x - cp.x < x
                },
            forall|qx: int, qy: int, qz: int|
                #[trigger] local_in_range(qx, qy, qz) && qx < x && chunk.spec_voxel(
                    qx,
                    qy,
                    qz,
                ).kind != spec_block_at(qy, noise.spec_sample(cp.x + qx, cp.z + qz)) ==> exists|
                    n: int,
                |
                    base <= n < out@.len() && #[trigger] out@[n] == (
                    VoxelPosition { x: (cp.x + qx) as i32, y: qy as i32, z: (cp.z + qz) as i32 },
                    chunk.spec_voxel(qx, qy, qz).kind,
                    ),
            forall|n: int, m: int|
                base <= n < m < out@.len() ==> (#[trigger] out@[n]).0 != (#[trigger] out@[m]).0,
        decreases 16 - x,
    {
        let mut y: usize = 0;
        while y < 256
            invariant
                chunk.wf(),
                noise.wf(),
                chunk_args_ok(cp, *noise),
                x < 16,
                y <= 256,
                base <= out@.len(),
                forall|n: int| 0 <= n < base ==> out@[n] == old(out)@[n],
                base == old(out)@.len(),
                forall|n: int|
                    base <= n < out@.len() ==> {
                        let (p, k) = #[trigger] out@[n];
                        &&& chunk_owns(cp, p)
                        &&& k == spec_live(cp, *chunk, p)
                        &&& k != spec_generated(*noise, p)
                        &&& (p.x - cp.x < x || (p.x - cp.x == x && p.y < y))
                    },
                forall|qx: int, qy: int, qz: int|
                    #[trigger] local_in_range(qx, qy, qz) && (qx < x || (qx == x && qy < y))
                        && chunk.spec_voxel(qx, qy, qz).kind != spec_block_at(
                        qy,
                        noise.spec_sample(cp.x + qx, cp.z + qz),
                    ) ==> exists|n: int|
                        base <= n < out@.len() && #[trigger] out@[n] == (
                        VoxelPosition {
                            x: (cp.x + qx) as i32,
                            y: qy as i32,
                            z: (cp.z + qz) as i32,
                        },
                        chunk.spec_voxel(qx, qy, qz).kind,
                        ),
                forall|n: int, m: int|
                    base <= n < m < out@.len() ==> (#[trigger] out@[n]).0 != (#[trigger] out@[m]).0,
            decreases 256 - y,
        {
            let mut z: usize = 0;
            while z < 16
                invariant
                    chunk.wf(),
                    noise.wf(),
                    chunk_args_ok(cp, *noise),
                    x < 16,
                    y < 256,
                    z <= 16,
                    base <= out@.len(),
                    forall|n: int| 0 <= n < base ==> out@[n] == old(out)@[n],
                    base == old(out)@.len(),
                    forall|n: int|
                        base <= n < out@.len() ==> {
                            let (p, k) = #[trigger] out@[n];
                            &&& chunk_owns(cp, p)
                            &&& k == spec_live(cp, *chunk, p)
                            &&& k != spec_generated(*noise, p)
                            &&& (p.x - cp.x < x || (p.x - cp.x == x && (p.y < y || (p.y == y && p.z
                                - cp.z < z))))
                        },
                    forall|qx: int, qy: int, qz: int|
                        #[trigger] local_in_range(qx, qy, qz) && (qx < x || (qx == x && (qy < y || (
                        qy == y && qz < z)))) && chunk.spec_voxel(qx, qy, qz).kind != spec_block_at(
                            qy,
                            noise.spec_sample(cp.x + qx, cp.z + qz),
                        ) ==> exists|n: int|
                            base <= n < out@.len() && #[trigger] out@[n] == (
                            VoxelPosition {
                                x: (cp.x + qx) as i32,
                                y: qy as i32,
                                z: (cp.z + qz) as i32,
                            },
                            chunk.spec_voxel(qx, qy, qz).kind,
                            ),
                    forall|n: int, m: int|
                        base <= n < m < out@.len() ==> (#[trigger] out@[n]).0 != (
                        #[trigger] out@[m]).0,
                decreases 16 - z,
            {
                let local = LocalVoxelPosition::new(x as u32, y as u32, z as u32);
                let live = chunk.voxel(local).kind();
                let wp = VoxelPosition::new(
                    cp.x() + x as i32,
                    y as i32,
                    cp.z() + z as i32,
                );
                let generated = block_at_position(wp, noise);
                let ghost pre = out@;
                if !(live == generated) {
                    out.push((wp, live));
                }
                proof {
                    assert(wp.x - cp.x == x && wp.y == y && wp.z - cp.z == z);
                    assert forall|qx: int, qy: int, qz: int|
                        #[trigger] local_in_range(qx, qy, qz) && (qx < x || (qx == x && (qy < y || (
                        qy == y && qz <= z)))) && chunk.spec_voxel(qx, qy, qz).kind != spec_block_at(
                            qy,
                            noise.spec_sample(cp.x + qx, cp.z + qz),
                        ) implies exists|n: int|
                            base <= n < out@.len() && #[trigger] out@[n] == (
                            VoxelPosition {
                                x: (cp.x + qx) as i32,
                                y: qy as i32,
                                z: (cp.z + qz) as i32,
                            },
                            chunk.spec_voxel(qx, qy, qz).kind,
                            ) by {
                        if qx == x && qy == y && qz == z {
                            assert(live != generated);
                            assert(out@[out@.len() - 1] == (wp, chunk.spec_voxel(x as int, y as int, z as int).kind));
                        } else {
                            let n = choose|n: int|
                                base <= n < pre.len() && #[trigger] pre[n] == (
                                VoxelPosition {
                                    x: (cp.x + qx) as i32,
                                    y: qy as i32,
                                    z: (cp.z + qz) as i32,
                                },
                                chunk.spec_voxel(qx, qy, qz).kind,
                                );
                            assert(out@[n] == pre[n]);
                        }
                    }
                }
                z += 1;
            }
            y += 1;
        }
        x += 1;
    }
}

impl SaveData {
    /// The diff of a set of resident chunks against the generator: exactly
    /// the voxels whose live kind differs from the deterministic output for
    /// this seed's noise field, each exactly once.
    #[verifier::rlimit(100)]
    pub fn from_world(
        chunks: &Vec<(ChunkPosition, ChunkVoxels)>,
        seed: u32,
        noise: &NoiseField,
    ) -> (r: SaveData)
        requires
            noise.wf(),
            forall|c: int|
                0 <= c < chunks@.len() ==> (#[trigger] chunks@[c]).1.wf() && chunk_args_ok(
                    chunks@[c].0,
                    *noise,
                ),
            forall|c1: int, c2: int|
                0 <= c1 < c2 < chunks@.len() ==> (#[trigger] chunks@[c1]).0 != (
                #[trigger] chunks@[c2]).0,
        ensures
            r.seed == seed,
            r.width == 0 && r.length == 0,
            forall|n: int|
                0 <= n < r.voxels@.len() ==> exists|c: int|
                    {
                        let (p, k) = #[trigger] r.voxels@[n];
                        &&& 0 <= c < chunks@.len()
                        &&& chunk_owns(#[trigger] chunks@[c].0, p)
                        &&& k == spec_live(chunks@[c].0, chunks@[c].1, p)
                        &&& k != spec_generated(*noise, p)
                    },
            forall|c: int, x: int, y: int, z: int|
                0 <= c < chunks@.len() && #[trigger] local_in_range(x, y, z) && (
                #[trigger] chunks@[c]).1.spec_voxel(x, y, z).kind != spec_block_at(
                    y,
                    noise.spec_sample(chunks@[c].0.x + x, chunks@[c].0.z + z),
                ) ==> exists|n: int|
                    0 <= n < r.voxels@.len() && #[trigger] r.voxels@[n] == (
                    VoxelPosition {
                        x: (chunks@[c].0.x + x) as i32,
                        y: y as i32,
                        z: (chunks@[c].0.z + z) as i32,
                    },
                    chunks@[c].1.spec_voxel(x, y, z).kind,
                    ),
            forall|n: int, m: int|
                0 <= n < m < r.voxels@.len() ==> (#[trigger] r.voxels@[n]).0 != (
                #[trigger] r.voxels@[m]).0,
    {
        let mut voxels: Vec<(VoxelPosition, VoxelKind)> = Vec::new();
        let mut c: usize = 0;
        let ghost mut starts: Seq<int> = seq![0];
        while c < chunks.len()
            invariant
                noise.wf(),
                forall|ci: int|
                    0 <= ci < chunks@.len() ==> (#[trigger] chunks@[ci]).1.wf() && chunk_args_ok(
                        chunks@[ci].0,
                        *noise,
                    ),
                forall|c1: int, c2: int|
                    0 <= c1 < c2 < chunks@.len() ==> (#[trigger] chunks@[c1]).0 != (
                    #[trigger] chunks@[c2]).0,
                c <= chunks@.len(),
                forall|n: int|
                    0 <= n < voxels@.len() ==> exists|ci: int|
                        {
                            let (p, k) = #[trigger] voxels@[n];
                            &&& 0 <= ci < c
                            &&& chunk_owns(#[trigger] chunks@[ci].0, p)
                            &&& k == spec_live(chunks@[ci].0, chunks@[ci].1, p)
                            &&& k != spec_generated(*noise, p)
                        },
                forall|ci: int, x: int, y: int, z: int|
                    0 <= ci < c && #[trigger] local_in_range(x, y, z) && (
                    #[trigger] chunks@[ci]).1.spec_voxel(x, y, z).kind != spec_block_at(
                        y,
                        noise.spec_sample(chunks@[ci].0.x + x, chunks@[ci].0.z + z),
                    ) ==> exists|n: int|
                        0 <= n < voxels@.len() && #[trigger] voxels@[n] == (
                        VoxelPosition {
                            x: (chunks@[ci].0.x + x) as i32,
                            y: y as i32,
                            z: (chunks@[ci].0.z + z) as i32,
                        },
                        chunks@[ci].1.spec_voxel(x, y, z).kind,
                        ),
                forall|n: int, m: int|
                    0 <= n < m < voxels@.len() ==> (#[trigger] voxels@[n]).0 != (
                    #[trigger] voxels@[m]).0,
            decreases chunks@.len() - c,
        {
            let (cp, chunk) = &chunks[c];
            let ghost before = voxels@.len() as int;
            let ghost pre = voxels@;
            diff_chunk(*cp, chunk, noise, &mut voxels);
            proof {
                let cpv = chunks@[c as int].0;
                let chv = chunks@[c as int].1;
                assert forall|n: int| 0 <= n < voxels@.len() implies exists|ci: int|
                    {
                        let (p, k) = #[trigger] voxels@[n];
                        &&& 0 <= ci < c + 1
                        &&& chunk_owns(#[trigger] chunks@[ci].0, p)
                        &&& k == spec_live(chunks@[ci].0, chunks@[ci].1, p)
                        &&& k != spec_generated(*noise, p)
                    } by {
                    if n < before {
                        assert(voxels@[n] == pre[n]);
                        let ci = choose|ci: int|
                            {
                                let (p, k) = pre[n];
                                &&& 0 <= ci < c
                                &&& chunk_owns(#[trigger] chunks@[ci].0, p)
                                &&& k == spec_live(chunks@[ci].0, chunks@[ci].1, p)
                                &&& k != spec_generated(*noise, p)
                            };
                        assert({
                            let (p, k) = voxels@[n];
                            &&& 0 <= ci < c + 1
                            &&& chunk_owns(chunks@[ci].0, p)
                            &&& k == spec_live(chunks@[ci].0, chunks@[ci].1, p)
                            &&& k != spec_generated(*noise, p)
                        });
                    } else {
                        assert({
                            let (p, k) = voxels@[n];
                            &&& chunk_owns(chunks@[c as int].0, p)
                            &&& k == spec_live(chunks@[c as int].0, chunks@[c as int].1, p)
                            &&& k != spec_generated(*noise, p)
                        });
                    }
                }
                assert forall|ci: int, x: int, y: int, z: int|
                    0 <= ci < c + 1 && #[trigger] local_in_range(x, y, z) && (
                    #[trigger] chunks@[ci]).1.spec_voxel(x, y, z).kind != spec_block_at(
                        y,
                        noise.spec_sample(chunks@[ci].0.x + x, chunks@[ci].0.z + z),
                    ) implies exists|n: int|
                        0 <= n < voxels@.len() && #[trigger] voxels@[n] == (
                        VoxelPosition {
                            x: (chunks@[ci].0.x + x) as i32,
                            y: y as i32,
                            z: (chunks@[ci].0.z + z) as i32,
                        },
                        chunks@[ci].1.spec_voxel(x, y, z).kind,
                        ) by {
                    if ci < c {
                        let n = choose|n: int|
                            0 <= n < pre.len() && #[trigger] pre[n] == (
                            VoxelPosition {
                                x: (chunks@[ci].0.x + x) as i32,
                                y: y as i32,
                                z: (chunks@[ci].0.z + z) as i32,
                            },
                            chunks@[ci].1.spec_voxel(x, y, z).kind,
                            );
                        assert(voxels@[n] == pre[n]);
                    } else {
                        let n = choose|n: int|
                            before <= n < voxels@.len() && #[trigger] voxels@[n] == (
                            VoxelPosition {
                                x: (cpv.x + x) as i32,
                                y: y as i32,
                                z: (cpv.z + z) as i32,
                            },
                            chv.spec_voxel(x, y, z).kind,
                            );
                        assert(0 <= n < voxels@.len());
                    }
                }
                // Entries from different chunks sit at different positions:
                // a position has one owner.
                assert forall|n: int, m: int|
                    0 <= n < m < voxels@.len() implies (#[trigger] voxels@[n]).0 != (
                #[trigger] voxels@[m]).0 by {
                    if n < before && m >= before {
                        let ci = choose|ci: int|
                            {
                                let (p, k) = voxels@[n];
                                &&& 0 <= ci < c
                                &&& chunk_owns(#[trigger] chunks@[ci].0, p)
                                &&& k == spec_live(chunks@[ci].0, chunks@[ci].1, p)
                                &&& k != spec_generated(*noise, p)
                            };
                        if voxels@[n].0 == voxels@[m].0 {
                            lemma_owner_unique(chunks@[ci].0, chunks@[c as int].0, voxels@[n].0);
                            assert(false);
                        }
                    }
                }
            }
            c += 1;
        }
        let ghost vfinal = voxels@;
        let r = SaveData { seed, width: 0, length: 0, voxels };
        proof {
            assert(r.voxels@ == vfinal);
            assert forall|ci: int, x: int, y: int, z: int|
                0 <= ci < chunks@.len() && #[trigger] local_in_range(x, y, z) && (
                #[trigger] chunks@[ci]).1.spec_voxel(x, y, z).kind != spec_block_at(
                    y,
                    noise.spec_sample(chunks@[ci].0.x + x, chunks@[ci].0.z + z),
                ) implies exists|n: int|
                    0 <= n < r.voxels@.len() && #[trigger] r.voxels@[n] == (
                    VoxelPosition {
                        x: (chunks@[ci].0.x + x) as i32,
                        y: y as i32,
                        z: (chunks@[ci].0.z + z) as i32,
                    },
                    chunks@[ci].1.spec_voxel(x, y, z).kind,
                    ) by {
                let n = choose|n: int|
                    0 <= n < vfinal.len() && #[trigger] vfinal[n] == (
                    VoxelPosition {
                        x: (chunks@[ci].0.x + x) as i32,
                        y: y as i32,
                        z: (chunks@[ci].0.z + z) as i32,
                    },
                    chunks@[ci].1.spec_voxel(x, y, z).kind,
                    );
                assert(r.voxels@[n] == vfinal[n]);
            }
        }
        r
    }
}

/// Write the saved voxels that fall inside one chunk into that chunk; all
/// other positions keep their value. The saved positions must be distinct,
/// as `from_world` guarantees.
#[verifier::rlimit(100)]
pub fn apply_diff(
    cp: ChunkPosition,
    chunk: &mut ChunkVoxels,
    voxels: &Vec<(VoxelPosition, VoxelKind)>,
)
    requires
        old(chunk).wf(),
        cp.wf(),
        forall|n: int, m: int|
            0 <= n < m < voxels@.len() ==> (#[trigger] voxels@[n]).0 != (#[trigger] voxels@[m]).0,
    ensures
        final(chunk).wf(),
        forall|n: int|
            0 <= n < voxels@.len() && chunk_owns(cp, (#[trigger] voxels@[n]).0)
                ==> spec_live(cp, *final(chunk), voxels@[n].0) == voxels@[n].1,
        forall|x: int, y: int, z: int|
            #[trigger] local_in_range(x, y, z) && (forall|n: int|
                0 <= n < voxels@.len() ==> (#[trigger] voxels@[n]).0 != (VoxelPosition {
                    x: (cp.x + x) as i32,
                    y: y as i32,
                    z: (cp.z + z) as i32,
                })) ==> final(chunk).spec_voxel(x, y, z) == old(chunk).spec_voxel(x, y, z),
{
    let mut i: usize = 0;
    while i < voxels.len()
        invariant
            chunk.wf(),
            cp.wf(),
            forall|n: int, m: int|
                0 <= n < m < voxels@.len() ==> (#[trigger] voxels@[n]).0 != (
                #[trigger] voxels@[m]).0,
            i <= voxels@.len(),
            forall|n: int|
                0 <= n < i && chunk_owns(cp, (#[trigger] voxels@[n]).0) ==> spec_live(
                    cp,
                    *chunk,
                    voxels@[n].0,
                ) == voxels@[n].1,
            forall|x: int, y: int, z: int|
                #[trigger] local_in_range(x, y, z) && (forall|n: int|
                    0 <= n < i ==> (#[trigger] voxels@[n]).0 != (VoxelPosition {
                        x: (cp.x + x) as i32,
                        y: y as i32,
                        z: (cp.z + z) as i32,
                    })) ==> chunk.spec_voxel(x, y, z) == old(chunk).spec_voxel(x, y, z),
        decreases voxels@.len() - i,
    {
        let (p, k) = voxels[i];
        let dx = p.x() as i64 - cp.x() as i64;
        let dz = p.z() as i64 - cp.z() as i64;
        if 0 <= dx && dx < 16 && 0 <= p.y() && p.y() < 256 && 0 <= dz && dz < 16 {
            let ghost pre = *chunk;
            let local = LocalVoxelPosition::new(dx as u32, p.y() as u32, dz as u32);
            let slot = chunk.voxel_mut(local);
            slot.kind = k;
            proof {
                assert(chunk_owns(cp, p));
                assert(p.x == cp.x + dx && p.z == cp.z + dz);
                // previously applied entries sit at other positions, hence
                // other locals, and keep their values
                assert forall|n: int|
                    0 <= n < i + 1 && chunk_owns(cp, (#[trigger] voxels@[n]).0) implies spec_live(
                    cp,
                    *chunk,
                    voxels@[n].0,
                ) == voxels@[n].1 by {
                    let q = voxels@[n].0;
                    assert(local_in_range(q.x - cp.x, q.y as int, q.z - cp.z));
                    if n < i {
                        assert(q != p);
                        if q.x - cp.x == dx && q.y == p.y && q.z - cp.z == dz {
                            assert(q.x == p.x && q.y == p.y && q.z == p.z);
                            assert(false);
                        }
                        assert(chunk.spec_voxel(q.x - cp.x, q.y as int, q.z - cp.z)
                            == pre.spec_voxel(q.x - cp.x, q.y as int, q.z - cp.z));
                        assert(spec_live(cp, pre, q) == voxels@[n].1);
                    } else {
                        assert(q == p);
                        assert(local_in_range(dx as int, p.y as int, dz as int));
                        assert(chunk.spec_voxel(dx as int, p.y as int, dz as int).kind == k);
                    }
                }
                assert forall|x: int, y: int, z: int|
                    #[trigger] local_in_range(x, y, z) && (forall|n: int|
                        0 <= n < i + 1 ==> (#[trigger] voxels@[n]).0 != (VoxelPosition {
                            x: (cp.x + x) as i32,
                            y: y as i32,
                            z: (cp.z + z) as i32,
                        })) implies chunk.spec_voxel(x, y, z) == old(chunk).spec_voxel(
                    x,
                    y,
                    z,
                ) by {
                    let wp = VoxelPosition { x: (cp.x + x) as i32, y: y as i32, z: (cp.z + z) as i32 };
                    assert(voxels@[i as int].0 != wp);
                    if x == dx as int && y == p.y as int && z == dz as int {
                        assert(wp == p);
                        assert(false);
                    }
                    assert(chunk.spec_voxel(x, y, z) == pre.spec_voxel(x, y, z));
                    assert(forall|n: int|
                        0 <= n < i ==> (#[trigger] voxels@[n]).0 != wp);
                    assert(pre.spec_voxel(x, y, z) == old(chunk).spec_voxel(x, y, z));
                }
            }
        }
        i += 1;
    }
}

/// Save round trip for one chunk: regenerate the chunk from the same seed,
/// apply the saved diff, and every voxel reads back exactly as in the
/// edited world the save was taken from.
pub proof fn lemma_save_round_trip(
    cp: ChunkPosition,
    edited: ChunkVoxels,
    fresh: ChunkVoxels,
    applied: ChunkVoxels,
    diff: Seq<(VoxelPosition, VoxelKind)>,
    noise: NoiseField,
)
    requires
        cp.wf(),
        cp.x + 16 <= i32::MAX,
        cp.z + 16 <= i32::MAX,
        // `fresh` is the generator's output for this seed
        forall|x: int, y: int, z: int|
            #[trigger] local_in_range(x, y, z) ==> fresh.spec_voxel(x, y, z).kind == spec_block_at(
                y,
                noise.spec_sample(cp.x + x, cp.z + z),
            ),
        // `diff` is sound: every entry holds the edited kind, differing from
        // the generator (as `from_world` ensures)
        forall|n: int|
            0 <= n < diff.len() ==> {
                let (p, k) = #[trigger] diff[n];
                &&& chunk_owns(cp, p)
                &&& k == spec_live(cp, edited, p)
                &&& k != spec_generated(noise, p)
            },
        // and complete: every difference appears in it
        forall|x: int, y: int, z: int|
            #[trigger] local_in_range(x, y, z) && edited.spec_voxel(x, y, z).kind != spec_block_at(
                y,
                noise.spec_sample(cp.x + x, cp.z + z),
            ) ==> exists|n: int|
                0 <= n < diff.len() && #[trigger] diff[n] == (
                VoxelPosition { x: (cp.x + x) as i32, y: y as i32, z: (cp.z + z) as i32 },
                edited.spec_voxel(x, y, z).kind,
                ),
        // `applied` is `fresh` with the diff written over it (as
        // `apply_diff` ensures)
        forall|n: int|
            0 <= n < diff.len() && chunk_owns(cp, (#[trigger] diff[n]).0) ==> spec_live(
                cp,
                applied,
                diff[n].0,
            ) == diff[n].1,
        forall|x: int, y: int, z: int|
            #[trigger] local_in_range(x, y, z) && (forall|n: int|
                0 <= n < diff.len() ==> (#[trigger] diff[n]).0 != (VoxelPosition {
                    x: (cp.x + x) as i32,
                    y: y as i32,
                    z: (cp.z + z) as i32,
                })) ==> applied.spec_voxel(x, y, z) == fresh.spec_voxel(x, y, z),
    ensures
        forall|x: int, y: int, z: int|
            #[trigger] local_in_range(x, y, z) ==> applied.spec_voxel(x, y, z).kind
                == edited.spec_voxel(x, y, z).kind,
{
    assert forall|x: int, y: int, z: int| #[trigger]
        local_in_range(x, y, z) implies applied.spec_voxel(x, y, z).kind == edited.spec_voxel(
        x,
        y,
        z,
    ).kind by {
        let p = VoxelPosition { x: (cp.x + x) as i32, y: y as i32, z: (cp.z + z) as i32 };
        let gen = spec_block_at(y, noise.spec_sample(cp.x + x, cp.z + z));
        if edited.spec_voxel(x, y, z).kind != gen {
            let n = choose|n: int|
                0 <= n < diff.len() && #[trigger] diff[n] == (
                p,
                edited.spec_voxel(x, y, z).kind,
                );
            assert(chunk_owns(cp, p));
            assert(spec_live(cp, applied, p) == diff[n].1);
            assert(p.x - cp.x == x && p.z - cp.z == z);
        } else {
            if exists|n: int|
                0 <= n < diff.len() && (#[trigger] diff[n]).0 == p {
                let n = choose|n: int| 0 <= n < diff.len() && (#[trigger] diff[n]).0 == p;
                assert(diff[n].1 == spec_live(cp, edited, p));
                assert(p.x - cp.x == x && p.z - cp.z == z);
                assert(spec_live(cp, edited, p) == edited.spec_voxel(x, y, z).kind);
                assert(diff[n].1 != spec_generated(noise, p));
                assert(false);
            }
        }
    }
}

} // verus!
