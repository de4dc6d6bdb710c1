//! Sequential byte cursors and the integer codecs the wire format rests on.
//!
//! All multi-byte integers travel big-endian; variable-size integers use a
//! descriptor byte whose trailing-zero count plus one gives the byte length of
//! the little-endian value that follows.

use vstd::prelude::*;
use vstd::pervasive::VecAdditionalExecFns;

verus! {

/// An error while reading from or writing to a cursor.
#[derive(Clone, Copy, Debug, PartialEq, Eq, Structural)]
pub enum WireError {
    /// The cursor ran off the end of its buffer.
    UnexpectedEnd,
    /// The bytes do not form a valid encoding.
    InvalidData,
}

/// `256^n`.
pub open spec fn pow256(n: nat) -> nat
    decreases n,
{
    if n == 0 {
        1
    } else {
        256 * pow256((n - 1) as nat)
    }
}

/// The `n` big-endian bytes of `v % 256^n` (most significant first).
pub open spec fn spec_be_bytes(v: nat, n: nat) -> Seq<u8>
    decreases n,
{
    if n == 0 {
        Seq::empty()
    } else {
        spec_be_bytes(v / 256, (n - 1) as nat) + seq![(v % 256) as u8]
    }
}

/// The value a big-endian byte string denotes (the empty string denotes zero).
pub open spec fn spec_be_from(s: Seq<u8>) -> nat
    decreases s.len(),
{
    if s.len() == 0 {
        0
    } else {
        (spec_be_from(s.drop_last()) * 256 + s.last()) as nat
    }
}

/// The value a little-endian byte string denotes.
pub open spec fn spec_le_from(s: Seq<u8>) -> nat
    decreases s.len(),
{
    if s.len() == 0 {
        0
    } else {
        (s.first() + 256 * spec_le_from(s.drop_first())) as nat
    }
}

/// The `n` little-endian bytes of `v % 256^n` (least significant first).
pub open spec fn spec_le_bytes(v: nat, n: nat) -> Seq<u8>
    decreases n,
{
    if n == 0 {
        Seq::empty()
    } else {
        seq![(v % 256) as u8] + spec_le_bytes(v / 256, (n - 1) as nat)
    }
}

proof fn lemma_pow256_pos(n: nat)
    ensures
        pow256(n) >= 1,
    decreases n,
{
    if n > 0 {
        lemma_pow256_pos((n - 1) as nat);
    }
}

/// A big-endian byte string denotes a value below `256^len`.
pub proof fn lemma_be_from_bound(s: Seq<u8>)
    ensures
        spec_be_from(s) < pow256(s.len()),
    decreases s.len(),
{
    if s.len() > 0 {
        lemma_be_from_bound(s.drop_last());
    }
}

/// Decoding the big-endian encoding of `v` gives `v` back.
pub proof fn lemma_be_round_trip(v: nat, n: nat)
    requires
        v < pow256(n),
    ensures
        spec_be_from(spec_be_bytes(v, n)) == v,
    decreases n,
{
    if n > 0 {
        let rest = spec_be_bytes(v / 256, (n - 1) as nat);
        let whole = rest + seq![(v % 256) as u8];
        assert(whole.drop_last() =~= rest);
        assert(v / 256 < pow256((n - 1) as nat)) by {
            lemma_pow256_pos((n - 1) as nat);
        }
        lemma_be_round_trip(v / 256, (n - 1) as nat);
    }
}

/// Decoding the little-endian encoding of `v` gives `v` back.
pub proof fn lemma_le_round_trip(v: nat, n: nat)
    requires
        v < pow256(n),
    ensures
        spec_le_from(spec_le_bytes(v, n)) == v,
    decreases n,
{
    if n > 0 {
        let rest = spec_le_bytes(v / 256, (n - 1) as nat);
        let whole = seq![(v % 256) as u8] + rest;
        assert(whole.drop_first() =~= rest);
        assert(v / 256 < pow256((n - 1) as nat)) by {
            lemma_pow256_pos((n - 1) as nat);
        }
        lemma_le_round_trip(v / 256, (n - 1) as nat);
    }
}

/// The big-endian encoding has the stated length.
pub proof fn lemma_be_bytes_len(v: nat, n: nat)
    ensures
        spec_be_bytes(v, n).len() == n,
    decreases n,
{
    if n > 0 {
        lemma_be_bytes_len(v / 256, (n - 1) as nat);
    }
}

/// The little-endian encoding has the stated length.
pub proof fn lemma_le_bytes_len(v: nat, n: nat)
    ensures
        spec_le_bytes(v, n).len() == n,
    decreases n,
{
    if n > 0 {
        lemma_le_bytes_len(v / 256, (n - 1) as nat);
    }
}

/// `new` differs from `old` exactly by having `bytes` written at `pos`.
pub open spec fn spec_written(old: Seq<u8>, pos: int, bytes: Seq<u8>, new: Seq<u8>) -> bool {
    &&& new.len() == old.len()
    &&& 0 <= pos
    &&& pos + bytes.len() <= old.len()
    &&& new.subrange(pos, pos + bytes.len() as int) == bytes
    &&& forall|i: int|
        0 <= i < old.len() && !(pos <= i < pos + bytes.len()) ==> new[i] == old[i]
}

/// Two consecutive writes amount to one write of the concatenation.
pub proof fn lemma_written_concat(
    a: Seq<u8>,
    pos: int,
    x: Seq<u8>,
    b: Seq<u8>,
    y: Seq<u8>,
    c: Seq<u8>,
)
    requires
        spec_written(a, pos, x, b),
        spec_written(b, pos + x.len(), y, c),
    ensures
        spec_written(a, pos, x + y, c),
{
    assert(c.subrange(pos, pos + x.len() + y.len()) =~= x + y) by {
        assert forall|i: int| 0 <= i < x.len() + y.len() implies c.subrange(
            pos,
            pos + x.len() + y.len(),
        )[i] == (x + y)[i] by {
            if i < x.len() {
                assert(c[pos + i] == b[pos + i]);
                assert(b[pos + i] == b.subrange(pos, pos + x.len() as int)[i]);
            } else {
                assert(c[pos + i] == c.subrange(
                    pos + x.len(),
                    pos + x.len() + y.len() as int,
                )[i - x.len()]);
            }
        }
    }
}

/// A cursor that reads sequentially from an owned byte buffer.
///
/// The position may run past the end; reads past the end fail without
/// changing the cursor.
#[derive(Clone, Debug)]
pub struct Bytes {
    pub inner: Vec<u8>,
    pub pos: usize,
}

/// A cursor that writes (and reads) sequentially over an owned, fixed-length
/// byte buffer.
#[derive(Clone, Debug)]
pub struct BytesMut {
    pub inner: Vec<u8>,
    pub pos: usize,
}

impl Bytes {
    /// Wraps a buffer in a cursor positioned at its start.
    pub fn new(inner: Vec<u8>) -> (r: Self)
        ensures
            r.inner@ == inner@,
            r.pos == 0,
    {
        Bytes { inner, pos: 0 }
    }

    /// The length of the underlying buffer.
    pub fn len(&self) -> (r: usize)
        ensures
            r == self.inner@.len(),
    {
        self.inner.len()
    }

    /// The current cursor position.
    pub fn position(&self) -> (r: usize)
        ensures
            r == self.pos,
    {
        self.pos
    }

    /// The number of bytes between the cursor position and the end.
    pub fn remaining(&self) -> (r: usize)
        ensures
            r == self.spec_remaining(),
            self.inner@.len() <= usize::MAX,
    {
        if self.pos <= self.inner.len() {
            self.inner.len() - self.pos
        } else {
            0
        }
    }

    /// The number of readable bytes left.
    pub open spec fn spec_remaining(self) -> int {
        if self.pos <= self.inner@.len() {
            self.inner@.len() - self.pos
        } else {
            0
        }
    }

    /// Moves the cursor forward by `n` bytes.
    pub fn advance(&mut self, n: usize) -> (r: Result<usize, WireError>)
        ensures
            match r {
                Ok(p) => {
                    &&& old(self).pos + n <= usize::MAX
                    &&& final(self).pos == old(self).pos + n
                    &&& p == final(self).pos
                    &&& final(self).inner@ == old(self).inner@
                },
                Err(e) => {
                    &&& e == WireError::UnexpectedEnd
                    &&& old(self).pos + n > usize::MAX
                    &&& *final(self) == *old(self)
                },
            },
    {
        match self.pos.checked_add(n) {
            Some(p) => {
                self.pos = p;
                Ok(p)
            },
            None => Err(WireError::UnexpectedEnd),
        }
    }

    /// Copies the bytes from the cursor position to the end into a new vector.
    pub fn to_vec(&self) -> (r: Vec<u8>)
        ensures
            r@ == self.inner@.subrange(
                if self.pos <= self.inner@.len() {
                    self.pos as int
                } else {
                    self.inner@.len() as int
                },
                self.inner@.len() as int,
            ),
    {
        let mut r: Vec<u8> = Vec::new();
        let start = if self.pos <= self.inner.len() {
            self.pos
        } else {
            self.inner.len()
        };
        let mut i: usize = start;
        while i < self.inner.len()
            invariant
                start <= i <= self.inner@.len(),
                r@ == self.inner@.subrange(start as int, i as int),
            decreases self.inner@.len() - i,
        {
            r.push(self.inner[i]);
            assert(r@ =~= self.inner@.subrange(start as int, i + 1));
            i += 1;
        }
        assert(r@ =~= self.inner@.subrange(start as int, self.inner@.len() as int));
        r
    }

    /// Splits the remaining buffer in two at `mid` (counted from the buffer
    /// start), each part wrapped in a fresh cursor.
    pub fn split_at(&self, mid: usize) -> (r: Result<(Bytes, Bytes), WireError>)
        ensures
            match r {
                Ok(parts) => {
                    &&& mid <= self.inner@.len()
                    &&& parts.0.inner@ == self.inner@.subrange(0, mid as int)
                    &&& parts.1.inner@ == self.inner@.subrange(
                        mid as int,
                        self.inner@.len() as int,
                    )
                    &&& parts.0.pos == 0
                    &&& parts.1.pos == 0
                },
                Err(e) => {
                    &&& e == WireError::UnexpectedEnd
                    &&& mid > self.inner@.len()
                },
            },
    {
        if mid > self.inner.len() {
            return Err(WireError::UnexpectedEnd);
        }
        let mut left: Vec<u8> = Vec::new();
        let mut i: usize = 0;
        while i < mid
            invariant
                i <= mid <= self.inner@.len(),
                left@ == self.inner@.subrange(0, i as int),
            decreases mid - i,
        {
            left.push(self.inner[i]);
            assert(left@ =~= self.inner@.subrange(0, i + 1));
            i += 1;
        }
        let mut right: Vec<u8> = Vec::new();
        let mut j: usize = mid;
        while j < self.inner.len()
            invariant
                mid <= j <= self.inner@.len(),
                right@ == self.inner@.subrange(mid as int, j as int),
            decreases self.inner@.len() - j,
        {
            right.push(self.inner[j]);
            assert(right@ =~= self.inner@.subrange(mid as int, j + 1));
            j += 1;
        }
        Ok((Bytes { inner: left, pos: 0 }, Bytes { inner: right, pos: 0 }))
    }

    /// Reads one byte, advancing the cursor.
    pub fn read_u8(&mut self) -> (r: Result<u8, WireError>)
        ensures
            match r {
                Ok(b) => {
                    &&& old(self).spec_remaining() >= 1
                    &&& b == old(self).inner@[old(self).pos as int]
                    &&& final(self).pos == old(self).pos + 1
                    &&& final(self).inner@ == old(self).inner@
                },
                Err(e) => {
                    &&& e == WireError::UnexpectedEnd
                    &&& old(self).spec_remaining() < 1
                    &&& *final(self) == *old(self)
                },
            },
    {
        if self.pos < self.inner.len() {
            let b = self.inner[self.pos];
            self.pos = self.pos + 1;
            Ok(b)
        } else {
            Err(WireError::UnexpectedEnd)
        }
    }

    /// Reads one byte without advancing the cursor.
    pub fn peek_u8(&self) -> (r: Result<u8, WireError>)
        ensures
            match r {
                Ok(b) => {
                    &&& self.spec_remaining() >= 1
                    &&& b == self.inner@[self.pos as int]
                },
                Err(e) => {
                    &&& e == WireError::UnexpectedEnd
                    &&& self.spec_remaining() < 1
                },
            },
    {
        if self.pos < self.inner.len() {
            Ok(self.inner[self.pos])
        } else {
            Err(WireError::UnexpectedEnd)
        }
    }

    /// Reads `n <= 8` big-endian bytes as an unsigned value, advancing the
    /// cursor.
    pub fn read_be(&mut self, n: usize) -> (r: Result<u64, WireError>)
        requires
            1 <= n <= 8,
        ensures
            match r {
                Ok(v) => {
                    &&& old(self).spec_remaining() >= n
                    &&& v == spec_be_from(
                        old(self).inner@.subrange(
                            old(self).pos as int,
                            old(self).pos + n,
                        ),
                    )
                    &&& final(self).pos == old(self).pos + n
                    &&& final(self).inner@ == old(self).inner@
                },
                Err(e) => {
                    &&& e == WireError::UnexpectedEnd
                    &&& old(self).spec_remaining() < n
                    &&& *final(self) == *old(self)
                },
            },
    {
        let rem = self.remaining();
        if rem < n {
            return Err(WireError::UnexpectedEnd);
        }
        let l = self.inner.len();
        let ghost base = self.pos as int;
        let mut v: u64 = 0;
        let mut j: usize = 0;
        proof {
            lemma_pow256_le_max(0);
        }
        while j < n
            invariant
                j <= n <= 8,
                self.pos + n <= self.inner@.len(),
                self.inner@.len() <= usize::MAX,
                base == self.pos,
                v == spec_be_from(self.inner@.subrange(base, base + j)),
                v < pow256(j as nat),
            decreases n - j,
        {
            let b = self.inner[self.pos + j];
            proof {
                lemma_pow256_le_max((j + 1) as nat);
                let s1 = self.inner@.subrange(base, base + j + 1);
                assert(s1.drop_last() =~= self.inner@.subrange(base, base + j));
            }
            v = v * 256 + (b as u64);
            j += 1;
        }
        self.pos = self.pos + n;
        Ok(v)
    }

    /// Reads a big-endian `u16`, advancing the cursor.
    pub fn read_u16(&mut self) -> (r: Result<u16, WireError>)
        ensures
            match r {
                Ok(v) => {
                    &&& old(self).spec_remaining() >= 2
                    &&& v == spec_be_from(
                        old(self).inner@.subrange(
                            old(self).pos as int,
                            old(self).pos + 2,
                        ),
                    )
                    &&& final(self).pos == old(self).pos + 2
                    &&& final(self).inner@ == old(self).inner@
                },
                Err(e) => {
                    &&& e == WireError::UnexpectedEnd
                    &&& old(self).spec_remaining() < 2
                    &&& *final(self) == *old(self)
                },
            },
    {
        let ghost pre = *self;
        match self.read_be(2) {
            Ok(v) => {
                proof {
                    lemma_be_from_bound(
                        pre.inner@.subrange(pre.pos as int, pre.pos + 2),
                    );
                    reveal_with_fuel(pow256, 3);
                }
                Ok(v as u16)
            },
            Err(e) => Err(e),
        }
    }

    /// Reads a big-endian `u64`, advancing the cursor.
    pub fn read_u64(&mut self) -> (r: Result<u64, WireError>)
        ensures
            match r {
                Ok(v) => {
                    &&& old(self).spec_remaining() >= 8
                    &&& v == spec_be_from(
                        old(self).inner@.subrange(
                            old(self).pos as int,
                            old(self).pos + 8,
                        ),
                    )
                    &&& final(self).pos == old(self).pos + 8
                    &&& final(self).inner@ == old(self).inner@
                },
                Err(e) => {
                    &&& e == WireError::UnexpectedEnd
                    &&& old(self).spec_remaining() < 8
                    &&& *final(self) == *old(self)
                },
            },
    {
        self.read_be(8)
    }
}

/// `256^n` fits in a `u64` while `n <= 8`.
proof fn lemma_pow256_le_max(n: nat)
    requires
        n <= 8,
    ensures
        pow256(n) <= 0x1_0000_0000_0000_0000,
        pow256(n) >= 1,
{
    reveal_with_fuel(pow256, 9);
}

/// The least number of little-endian bytes that can carry `v` (always 1..8).
pub open spec fn spec_varint_len(v: u64) -> nat {
    if v < 0x100 {
        1
    } else if v < 0x1_0000 {
        2
    } else if v < 0x100_0000 {
        3
    } else if v < 0x1_0000_0000 {
        4
    } else if v < 0x100_0000_0000 {
        5
    } else if v < 0x1_0000_0000_0000 {
        6
    } else if v < 0x100_0000_0000_0000 {
        7
    } else {
        8
    }
}

/// The descriptor byte announcing an `n`-byte value: `n - 1` trailing zeros.
pub open spec fn spec_desc_of_len(n: nat) -> u8
    recommends
        1 <= n <= 8,
{
    if n == 1 {
        1
    } else if n == 2 {
        2
    } else if n == 3 {
        4
    } else if n == 4 {
        8
    } else if n == 5 {
        16
    } else if n == 6 {
        32
    } else if n == 7 {
        64
    } else {
        128
    }
}

/// The byte length a descriptor announces: its trailing-zero count plus one.
pub open spec fn spec_len_of_desc(d: u8) -> nat
    recommends
        d != 0,
{
    if d % 2 == 1 {
        1
    } else if d % 4 == 2 {
        2
    } else if d % 8 == 4 {
        3
    } else if d % 16 == 8 {
        4
    } else if d % 32 == 16 {
        5
    } else if d % 64 == 32 {
        6
    } else if d % 128 == 64 {
        7
    } else {
        8
    }
}

/// The canonical variable-size encoding of `v`: a descriptor byte followed by
/// the shortest little-endian value.
pub open spec fn spec_varint(v: u64) -> Seq<u8> {
    seq![spec_desc_of_len(spec_varint_len(v))] + spec_le_bytes(v as nat, spec_varint_len(v))
}

/// Parses a variable-size integer at `pos`: the value and the number of bytes
/// consumed, or nothing if the descriptor is zero or the buffer too short.
pub open spec fn spec_parse_varint(s: Seq<u8>, pos: int) -> Option<(u64, int)> {
    if pos < 0 || pos >= s.len() {
        None
    } else if s[pos] == 0 {
        None
    } else {
        let n = spec_len_of_desc(s[pos]);
        if pos + 1 + n > s.len() {
            None
        } else {
            Some((spec_le_from(s.subrange(pos + 1, pos + 1 + n)) as u64, 1 + n as int))
        }
    }
}

/// Parsing the canonical encoding of `v` gives `v` back, consuming the whole
/// encoding.
pub proof fn lemma_varint_round_trip(v: u64)
    ensures
        spec_varint(v).len() == 1 + spec_varint_len(v),
        spec_parse_varint(spec_varint(v), 0) == Some((v, spec_varint(v).len() as int)),
{
    let n = spec_varint_len(v);
    let d = spec_desc_of_len(n);
    let body = spec_le_bytes(v as nat, n);
    lemma_le_bytes_len(v as nat, n);
    let s = spec_varint(v);
    assert(s[0] == d);
    assert(spec_len_of_desc(d) == n);
    assert(s.subrange(1, 1 + n as int) =~= body);
    assert(v < pow256(n)) by {
        reveal_with_fuel(pow256, 9);
    }
    lemma_le_round_trip(v as nat, n);
}

/// The value of `n` little-endian bytes at `pos`.
fn le_at(inner: &Vec<u8>, pos: usize, n: usize) -> (r: u64)
    requires
        1 <= n <= 8,
        pos + n <= inner@.len(),
    ensures
        r == spec_le_from(inner@.subrange(pos as int, pos + n)),
{
    let buf_len = inner.len();
    let mut v: u64 = 0;
    let mut j: usize = n;
    proof {
        lemma_pow256_le_max(0);
        assert(inner@.len() == buf_len);
        assert(inner@.subrange(pos + n, pos + n) =~= Seq::<u8>::empty());
    }
    while j > 0
        invariant
            j <= n <= 8,
            pos + n <= inner@.len(),
            inner@.len() <= usize::MAX,
            v == spec_le_from(inner@.subrange(pos + j, pos + n)),
            v < pow256((n - j) as nat),
        decreases j,
    {
        let b = inner[pos + j - 1];
        proof {
            lemma_pow256_le_max((n - j + 1) as nat);
            let s1 = inner@.subrange(pos + j - 1, pos + n);
            assert(s1.drop_first() =~= inner@.subrange(pos + j, pos + n));
            assert(s1.first() == inner@[pos + j - 1]);
        }
        v = v * 256 + (b as u64);
        j -= 1;
    }
    v
}

/// Parses a variable-size integer at `pos` in `inner`, returning the value
/// and the number of bytes consumed.
fn parse_varint_at(inner: &Vec<u8>, pos: usize) -> (r: Result<(u64, usize), WireError>)
    ensures
        match r {
            Ok(p) => {
                &&& spec_parse_varint(inner@, pos as int) == Some((p.0, p.1 as int))
                &&& pos + p.1 <= inner@.len()
                &&& 2 <= p.1 <= 9
            },
            Err(e) => {
                &&& spec_parse_varint(inner@, pos as int) is None
                &&& (e == WireError::UnexpectedEnd <==> pos >= inner@.len())
                &&& (e == WireError::InvalidData <==> pos < inner@.len())
            },
        },
{
    if pos >= inner.len() {
        return Err(WireError::UnexpectedEnd);
    }
    let d = inner[pos];
    if d == 0 {
        return Err(WireError::InvalidData);
    }
    let n: usize = if d % 2 == 1 {
        1
    } else if d % 4 == 2 {
        2
    } else if d % 8 == 4 {
        3
    } else if d % 16 == 8 {
        4
    } else if d % 32 == 16 {
        5
    } else if d % 64 == 32 {
        6
    } else if d % 128 == 64 {
        7
    } else {
        8
    };
    if inner.len() - pos - 1 < n {
        return Err(WireError::InvalidData);
    }
    let v = le_at(inner, pos + 1, n);
    Ok((v, 1 + n))
}

impl Bytes {
    /// Reads a variable-size integer, advancing the cursor past it.
    pub fn read_varint(&mut self) -> (r: Result<u64, WireError>)
        ensures
            match r {
                Ok(v) => {
                    &&& spec_parse_varint(old(self).inner@, old(self).pos as int) == Some(
                        (v, final(self).pos - old(self).pos),
                    )
                    &&& final(self).inner@ == old(self).inner@
                    &&& final(self).pos <= final(self).inner@.len()
                },
                Err(e) => {
                    &&& spec_parse_varint(old(self).inner@, old(self).pos as int) is None
                    &&& (e == WireError::UnexpectedEnd <==> old(self).pos >= old(
                        self,
                    ).inner@.len())
                    &&& (e == WireError::InvalidData <==> old(self).pos < old(self).inner@.len())
                    &&& *final(self) == *old(self)
                },
            },
    {
        let buf_len = self.inner.len();
        match parse_varint_at(&self.inner, self.pos) {
            Ok((v, consumed)) => {
                assert(self.pos + consumed <= buf_len);
                self.pos = self.pos + consumed;
                Ok(v)
            },
            Err(e) => Err(e),
        }
    }

    /// Reads a variable-size integer without advancing the cursor.
    pub fn peek_varint(&self) -> (r: Result<u64, WireError>)
        ensures
            match r {
                Ok(v) => {
                    &&& spec_parse_varint(self.inner@, self.pos as int) is Some
                    &&& spec_parse_varint(self.inner@, self.pos as int)->Some_0.0 == v
                },
                Err(e) => {
                    &&& spec_parse_varint(self.inner@, self.pos as int) is None
                    &&& (e == WireError::UnexpectedEnd <==> self.pos >= self.inner@.len())
                    &&& (e == WireError::InvalidData <==> self.pos < self.inner@.len())
                },
            },
    {
        match parse_varint_at(&self.inner, self.pos) {
            Ok((v, _consumed)) => Ok(v),
            Err(e) => Err(e),
        }
    }
}

/// Writes `bytes` over `inner` starting at `pos`.
fn splice_at(inner: &mut Vec<u8>, pos: usize, bytes: &Vec<u8>)
    requires
        pos + bytes@.len() <= old(inner)@.len(),
    ensures
        spec_written(old(inner)@, pos as int, bytes@, final(inner)@),
{
    let buf_len = inner.len();
    let mut i: usize = 0;
    while i < bytes.len()
        invariant
            i <= bytes@.len(),
            pos + bytes@.len() <= inner@.len(),
            inner@.len() <= usize::MAX,
            inner@.len() == old(inner)@.len(),
            inner@.subrange(pos as int, pos + i) == bytes@.subrange(0, i as int),
            forall|k: int|
                0 <= k < inner@.len() && !(pos <= k < pos + i) ==> inner@[k] == old(inner)@[k],
        decreases bytes@.len() - i,
    {
        inner.set(pos + i, bytes[i]);
        assert(inner@.subrange(pos as int, pos + i + 1) =~= bytes@.subrange(0, i + 1));
        i += 1;
    }
    assert(inner@.subrange(pos as int, pos + bytes@.len()) =~= bytes@);
}

/// The big-endian bytes of `v`, lowest byte last.
fn be_bytes_vec(v: u64, n: usize) -> (r: Vec<u8>)
    requires
        n <= 8,
    ensures
        r@ == spec_be_bytes(v as nat, n as nat),
        r@.len() == n,
    decreases n,
{
    proof {
        lemma_be_bytes_len(v as nat, n as nat);
    }
    if n == 0 {
        let r: Vec<u8> = Vec::new();
        assert(r@ =~= spec_be_bytes(v as nat, 0));
        r
    } else {
        let mut r = be_bytes_vec(v / 256, n - 1);
        r.push((v % 256) as u8);
        assert(r@ =~= spec_be_bytes(v as nat, n as nat));
        r
    }
}

/// The little-endian bytes of `v`, lowest byte first.
fn le_bytes_vec(v: u64, n: usize) -> (r: Vec<u8>)
    requires
        n <= 8,
    ensures
        r@ == spec_le_bytes(v as nat, n as nat),
        r@.len() == n,
    decreases n,
{
    proof {
        lemma_le_bytes_len(v as nat, n as nat);
    }
    if n == 0 {
        let r: Vec<u8> = Vec::new();
        assert(r@ =~= spec_le_bytes(v as nat, 0));
        r
    } else {
        let rest = le_bytes_vec(v / 256, n - 1);
        let mut r: Vec<u8> = Vec::new();
        r.push((v % 256) as u8);
        let mut i: usize = 0;
        while i < rest.len()
            invariant
                i <= rest@.len(),
                r@ == seq![(v % 256) as u8] + rest@.subrange(0, i as int),
            decreases rest@.len() - i,
        {
            r.push(rest[i]);
            assert(r@ =~= seq![(v % 256) as u8] + rest@.subrange(0, i + 1));
            i += 1;
        }
        assert(rest@.subrange(0, rest@.len() as int) =~= rest@);
        assert(r@ =~= spec_le_bytes(v as nat, n as nat));
        r
    }
}

impl BytesMut {
    /// Wraps a buffer in a write cursor positioned at its start.
    pub fn new(inner: Vec<u8>) -> (r: Self)
        ensures
            r.inner@ == inner@,
            r.pos == 0,
    {
        BytesMut { inner, pos: 0 }
    }

    /// A write cursor over `n` zeroed bytes.
    pub fn zeroed(n: usize) -> (r: Self)
        ensures
            r.inner@ == Seq::new(n as nat, |i: int| 0u8),
            r.pos == 0,
    {
        let inner: Vec<u8> = vec![0u8; n];
        assert(inner@ =~= Seq::new(n as nat, |i: int| 0u8));
        BytesMut { inner, pos: 0 }
    }

    /// The length of the underlying buffer.
    pub fn len(&self) -> (r: usize)
        ensures
            r == self.inner@.len(),
    {
        self.inner.len()
    }

    /// The current cursor position.
    pub fn position(&self) -> (r: usize)
        ensures
            r == self.pos,
    {
        self.pos
    }

    /// The number of bytes between the cursor position and the end.
    pub fn remaining(&self) -> (r: usize)
        ensures
            r == self.spec_remaining(),
            self.inner@.len() <= usize::MAX,
    {
        if self.pos <= self.inner.len() {
            self.inner.len() - self.pos
        } else {
            0
        }
    }

    /// The number of bytes left between the position and the end.
    pub open spec fn spec_remaining(self) -> int {
        if self.pos <= self.inner@.len() {
            self.inner@.len() - self.pos
        } else {
            0
        }
    }

    /// Moves the cursor forward by `n` bytes without writing.
    pub fn advance(&mut self, n: usize) -> (r: Result<usize, WireError>)
        ensures
            match r {
                Ok(p) => {
                    &&& old(self).pos + n <= usize::MAX
                    &&& final(self).pos == old(self).pos + n
                    &&& p == final(self).pos
                    &&& final(self).inner@ == old(self).inner@
                },
                Err(e) => {
                    &&& e == WireError::UnexpectedEnd
                    &&& old(self).pos + n > usize::MAX
                    &&& *final(self) == *old(self)
                },
            },
    {
        match self.pos.checked_add(n) {
            Some(p) => {
                self.pos = p;
                Ok(p)
            },
            None => Err(WireError::UnexpectedEnd),
        }
    }

    /// Gives the underlying buffer back.
    pub fn into_inner(self) -> (r: Vec<u8>)
        ensures
            r@ == self.inner@,
    {
        self.inner
    }

    /// Copies the bytes from the cursor position to the end into a new vector.
    pub fn to_vec(&self) -> (r: Vec<u8>)
        ensures
            r@ == self.inner@.subrange(
                if self.pos <= self.inner@.len() {
                    self.pos as int
                } else {
                    self.inner@.len() as int
                },
                self.inner@.len() as int,
            ),
    {
        let b = Bytes { inner: self.inner.clone(), pos: self.pos };
        b.to_vec()
    }

    /// Splits the buffer in two at `mid`, each part wrapped in a fresh read
    /// cursor.
    pub fn split_at(&self, mid: usize) -> (r: Result<(Bytes, Bytes), WireError>)
        ensures
            match r {
                Ok(parts) => {
                    &&& mid <= self.inner@.len()
                    &&& parts.0.inner@ == self.inner@.subrange(0, mid as int)
                    &&& parts.1.inner@ == self.inner@.subrange(
                        mid as int,
                        self.inner@.len() as int,
                    )
                    &&& parts.0.pos == 0
                    &&& parts.1.pos == 0
                },
                Err(e) => {
                    &&& e == WireError::UnexpectedEnd
                    &&& mid > self.inner@.len()
                },
            },
    {
        let b = Bytes { inner: self.inner.clone(), pos: self.pos };
        b.split_at(mid)
    }

    /// Splits the buffer in two at `mid`, each part wrapped in a fresh write
    /// cursor.
    pub fn split_at_mut(&self, mid: usize) -> (r: Result<(BytesMut, BytesMut), WireError>)
        ensures
            match r {
                Ok(parts) => {
                    &&& mid <= self.inner@.len()
                    &&& parts.0.inner@ == self.inner@.subrange(0, mid as int)
                    &&& parts.1.inner@ == self.inner@.subrange(
                        mid as int,
                        self.inner@.len() as int,
                    )
                    &&& parts.0.pos == 0
                    &&& parts.1.pos == 0
                },
                Err(e) => {
                    &&& e == WireError::UnexpectedEnd
                    &&& mid > self.inner@.len()
                },
            },
    {
        let b = Bytes { inner: self.inner.clone(), pos: self.pos };
        match b.split_at(mid) {
            Ok((left, right)) => Ok(
                (BytesMut { inner: left.inner, pos: 0 }, BytesMut { inner: right.inner, pos: 0 }),
            ),
            Err(e) => Err(e),
        }
    }

    /// Writes one byte at the cursor position, advancing past it.
    pub fn write_u8(&mut self, v: u8) -> (r: Result<(), WireError>)
        ensures
            match r {
                Ok(()) => {
                    &&& spec_written(old(self).inner@, old(self).pos as int, seq![v], final(self).inner@)
                    &&& final(self).pos == old(self).pos + 1
                },
                Err(e) => {
                    &&& e == WireError::UnexpectedEnd
                    &&& old(self).spec_remaining() < 1
                    &&& *final(self) == *old(self)
                },
            },
    {
        if self.pos < self.inner.len() {
            self.inner.set(self.pos, v);
            self.pos = self.pos + 1;
            proof {
                assert(final(self).inner@.subrange(
                    old(self).pos as int,
                    old(self).pos + 1,
                ) =~= seq![v]);
            }
            Ok(())
        } else {
            Err(WireError::UnexpectedEnd)
        }
    }

    /// Writes `v` as `n` big-endian bytes at the cursor position, advancing
    /// past them.
    pub fn write_be(&mut self, v: u64, n: usize) -> (r: Result<(), WireError>)
        requires
            1 <= n <= 8,
        ensures
            match r {
                Ok(()) => {
                    &&& spec_written(
                        old(self).inner@,
                        old(self).pos as int,
                        spec_be_bytes(v as nat, n as nat),
                        final(self).inner@,
                    )
                    &&& final(self).pos == old(self).pos + n
                },
                Err(e) => {
                    &&& e == WireError::UnexpectedEnd
                    &&& old(self).pos + n > old(self).inner@.len()
                    &&& *final(self) == *old(self)
                },
            },
    {
        let buf_len = self.inner.len();
        if self.pos > buf_len || buf_len - self.pos < n {
            return Err(WireError::UnexpectedEnd);
        }
        let bytes = be_bytes_vec(v, n);
        splice_at(&mut self.inner, self.pos, &bytes);
        self.pos = self.pos + n;
        Ok(())
    }

    /// Writes a big-endian `u16`, advancing the cursor.
    pub fn write_u16(&mut self, v: u16) -> (r: Result<(), WireError>)
        ensures
            match r {
                Ok(()) => {
                    &&& spec_written(
                        old(self).inner@,
                        old(self).pos as int,
                        spec_be_bytes(v as nat, 2),
                        final(self).inner@,
                    )
                    &&& final(self).pos == old(self).pos + 2
                },
                Err(e) => {
                    &&& e == WireError::UnexpectedEnd
                    &&& old(self).pos + 2 > old(self).inner@.len()
                    &&& *final(self) == *old(self)
                },
            },
    {
        self.write_be(v as u64, 2)
    }

    /// Writes a big-endian `u64`, advancing the cursor.
    pub fn write_u64(&mut self, v: u64) -> (r: Result<(), WireError>)
        ensures
            match r {
                Ok(()) => {
                    &&& spec_written(
                        old(self).inner@,
                        old(self).pos as int,
                        spec_be_bytes(v as nat, 8),
                        final(self).inner@,
                    )
                    &&& final(self).pos == old(self).pos + 8
                },
                Err(e) => {
                    &&& e == WireError::UnexpectedEnd
                    &&& old(self).pos + 8 > old(self).inner@.len()
                    &&& *final(self) == *old(self)
                },
            },
    {
        self.write_be(v, 8)
    }

    /// Sets `count` bytes to `val` starting at the cursor position, advancing
    /// past them.
    pub fn write_bytes(&mut self, val: u8, count: usize) -> (r: Result<(), WireError>)
        ensures
            match r {
                Ok(()) => {
                    &&& spec_written(
                        old(self).inner@,
                        old(self).pos as int,
                        Seq::new(count as nat, |i: int| val),
                        final(self).inner@,
                    )
                    &&& final(self).pos == old(self).pos + count
                },
                Err(e) => {
                    &&& e == WireError::UnexpectedEnd
                    &&& old(self).pos + count > old(self).inner@.len()
                    &&& *final(self) == *old(self)
                },
            },
    {
        let buf_len = self.inner.len();
        if self.pos > buf_len || buf_len - self.pos < count {
            return Err(WireError::UnexpectedEnd);
        }
        let bytes: Vec<u8> = vec![val; count];
        assert(bytes@ =~= Seq::new(count as nat, |i: int| val));
        splice_at(&mut self.inner, self.pos, &bytes);
        self.pos = self.pos + count;
        Ok(())
    }

    /// Copies all of `src` to the cursor position, advancing past it.
    pub fn copy_from_slice(&mut self, src: &[u8]) -> (r: Result<(), WireError>)
        ensures
            match r {
                Ok(()) => {
                    &&& spec_written(old(self).inner@, old(self).pos as int, src@, final(self).inner@)
                    &&& final(self).pos == old(self).pos + src@.len()
                },
                Err(e) => {
                    &&& e == WireError::UnexpectedEnd
                    &&& old(self).pos + src@.len() > old(self).inner@.len()
                    &&& *final(self) == *old(self)
                },
            },
    {
        let buf_len = self.inner.len();
        if self.pos > buf_len || buf_len - self.pos < src.len() {
            return Err(WireError::UnexpectedEnd);
        }
        let mut bytes: Vec<u8> = Vec::new();
        let mut i: usize = 0;
        while i < src.len()
            invariant
                i <= src@.len(),
                bytes@ == src@.subrange(0, i as int),
            decreases src@.len() - i,
        {
            bytes.push(src[i]);
            assert(bytes@ =~= src@.subrange(0, i + 1));
            i += 1;
        }
        assert(bytes@ =~= src@);
        splice_at(&mut self.inner, self.pos, &bytes);
        self.pos = self.pos + src.len();
        Ok(())
    }

    /// Writes `v` as a variable-size integer, advancing the cursor past the
    /// descriptor and value.
    pub fn write_varint(&mut self, v: u64) -> (r: Result<(), WireError>)
        ensures
            match r {
                Ok(()) => {
                    &&& spec_written(
                        old(self).inner@,
                        old(self).pos as int,
                        spec_varint(v),
                        final(self).inner@,
                    )
                    &&& final(self).pos == old(self).pos + 1 + spec_varint_len(v)
                },
                Err(e) => {
                    &&& e == WireError::UnexpectedEnd
                    &&& old(self).pos + 1 + spec_varint_len(v) > old(self).inner@.len()
                    &&& *final(self) == *old(self)
                },
            },
    {
        let n: usize = if v < 0x100 {
            1
        } else if v < 0x1_0000 {
            2
        } else if v < 0x100_0000 {
            3
        } else if v < 0x1_0000_0000 {
            4
        } else if v < 0x100_0000_0000 {
            5
        } else if v < 0x1_0000_0000_0000 {
            6
        } else if v < 0x100_0000_0000_0000 {
            7
        } else {
            8
        };
        let desc: u8 = if n == 1 {
            1
        } else if n == 2 {
            2
        } else if n == 3 {
            4
        } else if n == 4 {
            8
        } else if n == 5 {
            16
        } else if n == 6 {
            32
        } else if n == 7 {
            64
        } else {
            128
        };
        let buf_len = self.inner.len();
        if self.pos > buf_len || buf_len - self.pos < 1 + n {
            return Err(WireError::UnexpectedEnd);
        }
        let mut bytes: Vec<u8> = Vec::new();
        bytes.push(desc);
        let body = le_bytes_vec(v, n);
        let mut i: usize = 0;
        while i < body.len()
            invariant
                i <= body@.len(),
                bytes@ == seq![desc] + body@.subrange(0, i as int),
            decreases body@.len() - i,
        {
            bytes.push(body[i]);
            assert(bytes@ =~= seq![desc] + body@.subrange(0, i + 1));
            i += 1;
        }
        assert(body@.subrange(0, body@.len() as int) =~= body@);
        assert(bytes@ =~= spec_varint(v));
        splice_at(&mut self.inner, self.pos, &bytes);
        self.pos = self.pos + 1 + n;
        Ok(())
    }

    /// Reads a variable-size integer, advancing the cursor past it.
    pub fn read_varint(&mut self) -> (r: Result<u64, WireError>)
        ensures
            match r {
                Ok(v) => {
                    &&& spec_parse_varint(old(self).inner@, old(self).pos as int) == Some(
                        (v, final(self).pos - old(self).pos),
                    )
                    &&& final(self).inner@ == old(self).inner@
                    &&& final(self).pos <= final(self).inner@.len()
                },
                Err(e) => {
                    &&& spec_parse_varint(old(self).inner@, old(self).pos as int) is None
                    &&& (e == WireError::UnexpectedEnd <==> old(self).pos >= old(
                        self,
                    ).inner@.len())
                    &&& (e == WireError::InvalidData <==> old(self).pos < old(self).inner@.len())
                    &&& *final(self) == *old(self)
                },
            },
    {
        let buf_len = self.inner.len();
        match parse_varint_at(&self.inner, self.pos) {
            Ok((v, consumed)) => {
                assert(self.pos + consumed <= buf_len);
                self.pos = self.pos + consumed;
                Ok(v)
            },
            Err(e) => Err(e),
        }
    }

    /// Reads a variable-size integer without advancing the cursor.
    pub fn peek_varint(&self) -> (r: Result<u64, WireError>)
        ensures
            match r {
                Ok(v) => {
                    &&& spec_parse_varint(self.inner@, self.pos as int) is Some
                    &&& spec_parse_varint(self.inner@, self.pos as int)->Some_0.0 == v
                },
                Err(e) => {
                    &&& spec_parse_varint(self.inner@, self.pos as int) is None
                    &&& (e == WireError::UnexpectedEnd <==> self.pos >= self.inner@.len())
                    &&& (e == WireError::InvalidData <==> self.pos < self.inner@.len())
                },
            },
    {
        match parse_varint_at(&self.inner, self.pos) {
            Ok((v, _consumed)) => Ok(v),
            Err(e) => Err(e),
        }
    }
}

} // verus!
