//! Typed views of guest memory: values, pointers, pointer chains and inline strings.
use crate::guest::{guest_offset, GuestMemory, Ps2Error, Ps2Memory};
use std::marker::PhantomData;
use vstd::prelude::*;

verus! {

/// The unsigned little-endian number held by the first four bytes of `b`.
pub open spec fn le_u32(b: Seq<u8>) -> int {
    b[0] + 0x100 * b[1] + 0x1_0000 * b[2] + 0x100_0000 * b[3]
}

/// The unsigned little-endian number held by the first two bytes of `b`.
pub open spec fn le_u16(b: Seq<u8>) -> int {
    b[0] + 0x100 * b[1]
}

/// The two's-complement number held by the first four bytes of `b`.
pub open spec fn le_i32(b: Seq<u8>) -> int {
    if le_u32(b) < 0x8000_0000 {
        le_u32(b)
    } else {
        le_u32(b) - 0x1_0000_0000
    }
}

/// The two's-complement number held by the first two bytes of `b`.
pub open spec fn le_i16(b: Seq<u8>) -> int {
    if le_u16(b) < 0x8000 {
        le_u16(b)
    } else {
        le_u16(b) - 0x1_0000
    }
}

/// The `w` bytes at offset `off` of the record of `size` bytes that starts
/// at `pos` in `b` are the bytes at `pos + off` in `b`.
pub proof fn lemma_field_bytes(b: Seq<u8>, pos: int, size: int, off: int, w: int)
    requires
        0 <= pos,
        pos + size <= b.len(),
        0 <= off,
        0 <= w,
        off + w <= size,
    ensures
        b.subrange(pos, pos + size).subrange(off, off + w) == b.subrange(pos + off, pos + off + w),
{
    assert(b.subrange(pos, pos + size).subrange(off, off + w) =~= b.subrange(
        pos + off,
        pos + off + w,
    ));
}

/// Reads the little-endian `u32` at `pos` in `b`.
pub fn read_u32_le(b: &[u8], pos: usize) -> (r: u32)
    requires
        pos + 4 <= b@.len(),
    ensures
        r == le_u32(b@.subrange(pos as int, pos + 4)),
{
    (b[pos] as u32) + 0x100 * (b[pos + 1] as u32) + 0x1_0000 * (b[pos + 2] as u32) + 0x100_0000 * (
    b[pos + 3] as u32)
}

/// Reads the little-endian `i32` at `pos` in `b` (two's complement).
pub fn read_i32_le(b: &[u8], pos: usize) -> (r: i32)
    requires
        pos + 4 <= b@.len(),
    ensures
        r == le_i32(b@.subrange(pos as int, pos + 4)),
{
    let u = read_u32_le(b, pos);
    if u < 0x8000_0000 {
        u as i32
    } else {
        ((u as i64) - 0x1_0000_0000) as i32
    }
}

/// Reads the little-endian `i16` at `pos` in `b` (two's complement).
pub fn read_i16_le(b: &[u8], pos: usize) -> (r: i16)
    requires
        pos + 2 <= b@.len(),
    ensures
        r == le_i16(b@.subrange(pos as int, pos + 2)),
{
    let u: u32 = (b[pos] as u32) + 0x100 * (b[pos + 1] as u32);
    if u < 0x8000 {
        u as i16
    } else {
        ((u as i32) - 0x1_0000) as i16
    }
}

/// A value that can be read from guest memory by reinterpreting a fixed
/// number of little-endian bytes.
pub trait Ps2Value: Sized {
    /// The number of bytes that the value occupies in guest memory.
    spec fn byte_len() -> nat;

    /// Whether `self` is the value that the bytes `b` hold.
    spec fn decodes(&self, b: Seq<u8>) -> bool;

    fn size() -> (r: usize)
        ensures
            r == Self::byte_len(),
    ;

    /// Decodes the value whose bytes start at `pos` in `b`.
    fn decode_at(b: &[u8], pos: usize) -> (r: Self)
        requires
            pos + Self::byte_len() <= b@.len(),
        ensures
            r.decodes(b@.subrange(pos as int, pos + Self::byte_len())),
    ;
}

impl Ps2Value for u32 {
    open spec fn byte_len() -> nat {
        4
    }

    open spec fn decodes(&self, b: Seq<u8>) -> bool {
        *self == le_u32(b)
    }

    fn size() -> (r: usize) {
        4
    }

    fn decode_at(b: &[u8], pos: usize) -> (r: u32) {
        read_u32_le(b, pos)
    }
}

impl Ps2Value for i32 {
    open spec fn byte_len() -> nat {
        4
    }

    open spec fn decodes(&self, b: Seq<u8>) -> bool {
        *self == le_i32(b)
    }

    fn size() -> (r: usize) {
        4
    }

    fn decode_at(b: &[u8], pos: usize) -> (r: i32) {
        read_i32_le(b, pos)
    }
}

/// A 32-bit IEEE-754 number, kept as its bit pattern.
#[derive(Clone, Copy, Debug, PartialEq, Eq, Structural)]
pub struct F32Bits {
    pub bits: u32,
}

/// The biased exponent field of an IEEE-754 single.
pub open spec fn f32_exponent(bits: u32) -> int {
    (bits as int / 0x80_0000) % 0x100
}

/// The fraction field of an IEEE-754 single.
pub open spec fn f32_fraction(bits: u32) -> int {
    bits as int % 0x80_0000
}

/// Whether a bit pattern is a NaN: all exponent bits set, fraction not zero.
pub open spec fn f32_is_nan(bits: u32) -> bool {
    f32_exponent(bits) == 0xFF && f32_fraction(bits) != 0
}

impl F32Bits {
    pub fn is_nan(&self) -> (r: bool)
        ensures
            r == f32_is_nan(self.bits),
    {
        (self.bits / 0x80_0000) % 0x100 == 0xFF && self.bits % 0x80_0000 != 0
    }
}

impl Ps2Value for F32Bits {
    open spec fn byte_len() -> nat {
        4
    }

    open spec fn decodes(&self, b: Seq<u8>) -> bool {
        self.bits == le_u32(b)
    }

    fn size() -> (r: usize) {
        4
    }

    fn decode_at(b: &[u8], pos: usize) -> (r: F32Bits) {
        F32Bits { bits: read_u32_le(b, pos) }
    }
}

/// A typed pointer into guest memory.
pub struct Ps2Ptr<T> {
    pub address: u32,
    pub marker: PhantomData<T>,
}

impl<T> Clone for Ps2Ptr<T> {
    fn clone(&self) -> (r: Self)
        ensures
            r.address == self.address,
    {
        Ps2Ptr { address: self.address, marker: PhantomData }
    }
}

impl<T> Ps2Ptr<T> {
    pub fn new(offset: u32) -> (r: Self)
        ensures
            r.address == offset,
    {
        Ps2Ptr { address: offset, marker: PhantomData }
    }
}

/// Whether `values` are the values that `bytes` holds one after the other,
/// each in `size` bytes.
pub open spec fn decodes_many<T: Ps2Value>(values: Seq<T>, bytes: Seq<u8>, size: int) -> bool {
    forall|i: int|
        0 <= i < values.len() ==> #[trigger] values[i].decodes(
            bytes.subrange(i * size, (i + 1) * size),
        )
}

/// Whether `v` is what some bytes hold.
pub open spec fn decodes_some_bytes<T: Ps2Value>(v: T) -> bool {
    exists|b: Seq<u8>| b.len() == T::byte_len() && #[trigger] v.decodes(b)
}

/// Whether `values` are what some bytes hold, each value in `size` bytes.
pub open spec fn decode_of_some_bytes<T: Ps2Value>(values: Seq<T>, size: int) -> bool {
    exists|b: Seq<u8>| b.len() == values.len() * size && #[trigger] decodes_many(values, b, size)
}

/// Decodes `count` consecutive values from the start of `bytes`.
pub fn decode_many<T: Ps2Value>(bytes: &[u8], count: usize) -> (r: Vec<T>)
    requires
        bytes@.len() == count * T::byte_len(),
    ensures
        r@.len() == count,
        decodes_many(r@, bytes@, T::byte_len() as int),
{
    let size = T::size();
    let blen = bytes.len();
    let mut out: Vec<T> = Vec::new();
    let mut i: usize = 0;
    while i < count
        invariant
            size == T::byte_len(),
            blen == bytes@.len(),
            bytes@.len() == count * size,
            i <= count,
            out@.len() == i,
            decodes_many(out@, bytes@, size as int),
        decreases count - i,
    {
        proof {
            vstd::arithmetic::mul::lemma_mul_inequality((i + 1) as int, count as int, size as int);
            vstd::arithmetic::mul::lemma_mul_is_distributive_add_other_way(size as int, i as int, 1);
        }
        let v = T::decode_at(bytes, i * size);
        let ghost old_out = out@;
        out.push(v);
        proof {
            assert forall|k: int| 0 <= k < out@.len() implies #[trigger] out@[k].decodes(
                bytes@.subrange(k * size, (k + 1) * size),
            ) by {
                if k < i {
                    assert(out@[k] == old_out[k]);
                } else {
                    assert((k + 1) * size == k * size + size) by (nonlinear_arith);
                }
            }
        }
        i = i + 1;
    }
    out
}

impl<T: Ps2Value> Ps2Ptr<T> {
    /// Reads the value that the pointer points at.
    pub fn get<M: Ps2Memory>(&self, mem: &GuestMemory<'_, M>) -> (r: Result<T, Ps2Error>)
        requires
            mem.wf(),
        ensures
            guest_offset(self.address) is None <==> r == Err::<T, Ps2Error>(
                Ps2Error::UnmappedGuestAddress(self.address),
            ),
            guest_offset(self.address) is Some ==> (r is Ok || r->Err_0 is ReadFailure),
            r is Ok ==> decodes_some_bytes(r->Ok_0),
    {
        match mem.read(self.address, T::size()) {
            Ok(bytes) => {
                let v = T::decode_at(bytes.as_slice(), 0);
                let ghost b = bytes@.subrange(0, T::byte_len() as int);
                assert(b.len() == T::byte_len() && v.decodes(b));
                assert(decodes_some_bytes(v));
                Ok(v)
            },
            Err(e) => Err(e),
        }
    }

    /// Reads `count` consecutive values starting at the pointer, in one read
    /// (see `decode_many`).
    pub fn get_many<M: Ps2Memory>(&self, mem: &GuestMemory<'_, M>, count: usize) -> (r: Result<
        Vec<T>,
        Ps2Error,
    >)
        requires
            mem.wf(),
            count * T::byte_len() <= usize::MAX,
        ensures
            guest_offset(self.address) is None <==> r == Err::<Vec<T>, Ps2Error>(
                Ps2Error::UnmappedGuestAddress(self.address),
            ),
            guest_offset(self.address) is Some ==> (r is Ok || r->Err_0 is ReadFailure),
            r is Ok ==> r->Ok_0@.len() == count,
            r is Ok ==> decode_of_some_bytes(r->Ok_0@, T::byte_len() as int),
    {
        let bytes = match mem.read(self.address, count * T::size()) {
            Ok(bytes) => bytes,
            Err(e) => {
                return Err(e);
            },
        };
        let vs = decode_many(bytes.as_slice(), count);
        assert(decode_of_some_bytes(vs@, T::byte_len() as int));
        Ok(vs)
    }
}

/// A chain of offsets that is followed through guest pointers: starting at
/// guest address 0, each offset but the last is added to the current address
/// and the guest pointer stored there becomes the new current address; the
/// last offset is added to the final pointer to reach the value.
pub struct Ps2PtrChain<T> {
    pub offsets: Vec<u32>,
    pub marker: PhantomData<T>,
}

impl<T> Ps2PtrChain<T> {
    pub fn new(offsets: Vec<u32>) -> (r: Self)
        ensures
            r.offsets@ == offsets@,
    {
        Ps2PtrChain { offsets, marker: PhantomData }
    }
}

/// The guest address read at step `k` of a walk along `offsets`, where
/// `ptrs` are the pointers read at the steps before: the first offset, then
/// each pointer read plus the next offset.
pub open spec fn chain_address(offsets: Seq<u32>, ptrs: Seq<u32>, k: int) -> int {
    if k == 0 {
        offsets[0] as int
    } else {
        ptrs[k - 1] + offsets[k]
    }
}

/// Whether `ptrs` are pointers read at the first steps of a walk along
/// `offsets` after which the walk went on: none is null, and none plus the
/// next offset passes the top of the 32-bit address space.
pub open spec fn chain_walk(offsets: Seq<u32>, ptrs: Seq<u32>) -> bool {
    &&& ptrs.len() < offsets.len()
    &&& forall|k: int|
        0 <= k < ptrs.len() ==> #[trigger] ptrs[k] != 0 && ptrs[k] + offsets[k + 1] <= u32::MAX
}

/// One step of a pointer chain: the pointer read at step `step` from
/// `addr`, plus the next offset, is the next address to read. A null
/// pointer ends the walk with the step and the address it was read from;
/// a sum past the top of the address space is no guest address.
pub fn chain_step(step: usize, addr: u32, pointer: u32, next_offset: u32) -> (r: Result<
    u32,
    Ps2Error,
>)
    ensures
        pointer == 0 ==> r == Err::<u32, Ps2Error>(Ps2Error::NullInChain(step, addr)),
        pointer != 0 && pointer + next_offset > u32::MAX ==> r == Err::<u32, Ps2Error>(
            Ps2Error::UnmappedGuestAddress(pointer),
        ),
        pointer != 0 && pointer + next_offset <= u32::MAX ==> r == Ok::<u32, Ps2Error>(
            (pointer + next_offset) as u32,
        ),
{
    if pointer == 0 {
        Err(Ps2Error::NullInChain(step, addr))
    } else if pointer > u32::MAX - next_offset {
        Err(Ps2Error::UnmappedGuestAddress(pointer))
    } else {
        Ok(pointer + next_offset)
    }
}

impl<T: Ps2Value> Ps2PtrChain<T> {
    /// Follows the chain and reads the value at its end (see `chain_step`).
    /// The reads go to the addresses of `chain_address` in turn, and a
    /// failure ends the walk.
    pub fn get<M: Ps2Memory>(&self, mem: &GuestMemory<'_, M>) -> (r: Result<T, Ps2Error>)
        requires
            mem.wf(),
            self.offsets@.len() >= 2,
        ensures
            guest_offset(self.offsets@[0]) is None ==> r == Err::<T, Ps2Error>(
                Ps2Error::UnmappedGuestAddress(self.offsets@[0]),
            ),
            r is Err ==> (r->Err_0 is UnmappedGuestAddress || r->Err_0 is NullInChain
                || r->Err_0 is ReadFailure),
            r matches Err(Ps2Error::NullInChain(k, a)) ==> k < self.offsets@.len() - 1 && exists|
                ptrs: Seq<u32>,
            |
                #[trigger] chain_walk(self.offsets@, ptrs) && ptrs.len() == k && a == chain_address(
                    self.offsets@,
                    ptrs,
                    k as int,
                ),
            r matches Err(Ps2Error::UnmappedGuestAddress(a)) ==> exists|ptrs: Seq<u32>|
                #[trigger] chain_walk(self.offsets@, ptrs) && ((a == chain_address(
                    self.offsets@,
                    ptrs,
                    ptrs.len() as int,
                ) && guest_offset(a) is None) || (ptrs.len() + 1int < self.offsets@.len() && a != 0
                    && a + self.offsets@[ptrs.len() + 1int] > u32::MAX)),
            r matches Ok(v) ==> exists|ptrs: Seq<u32>|
                #[trigger] chain_walk(self.offsets@, ptrs) && ptrs.len() == self.offsets@.len() - 1
                    && guest_offset(chain_address(self.offsets@, ptrs, ptrs.len() as int) as u32)
                    is Some && decodes_some_bytes(v),
    {
        let n = self.offsets.len();
        let mut addr: u32 = self.offsets[0];
        let ghost mut ptrs: Seq<u32> = Seq::empty();
        let mut step: usize = 0;
        while step < n - 1
            invariant
                mem.wf(),
                n == self.offsets@.len(),
                n >= 2,
                step <= n - 1,
                ptrs.len() == step,
                chain_walk(self.offsets@, ptrs),
                addr == chain_address(self.offsets@, ptrs, step as int),
                step > 0 ==> guest_offset(self.offsets@[0]) is Some,
            decreases n - 1 - step,
        {
            let p = match mem.read(addr, 4) {
                Ok(p) => p,
                Err(e) => {
                    assert(chain_walk(self.offsets@, ptrs));
                    return Err(e);
                },
            };
            let pointer = read_u32_le(p.as_slice(), 0);
            match chain_step(step, addr, pointer, self.offsets[step + 1]) {
                Ok(next) => {
                    proof {
                        let old_ptrs = ptrs;
                        ptrs = ptrs.push(pointer);
                        assert forall|k: int| 0 <= k < ptrs.len() implies #[trigger] ptrs[k] != 0
                            && ptrs[k] + self.offsets@[k + 1] <= u32::MAX by {
                            if k < old_ptrs.len() {
                                assert(ptrs[k] == old_ptrs[k]);
                            }
                        }
                    }
                    addr = next;
                },
                Err(e) => {
                    assert(chain_walk(self.offsets@, ptrs));
                    return Err(e);
                },
            }
            step = step + 1;
        }
        match mem.read(addr, T::size()) {
            Ok(bytes) => {
                let v = T::decode_at(bytes.as_slice(), 0);
                assert(bytes@.subrange(0, T::byte_len() as int).len() == T::byte_len());
                assert(chain_walk(self.offsets@, ptrs));
                Ok(v)
            },
            Err(e) => {
                assert(chain_walk(self.offsets@, ptrs));
                Err(e)
            },
        }
    }
}

/// The characters that a Latin-1 (ISO-8859-1) byte sequence encodes: one
/// code point per byte, equal to the byte.
pub open spec fn latin1(b: Seq<u8>) -> Seq<char> {
    b.map_values(|x: u8| x as char)
}

/// The bytes of `b` before its first zero byte, or all of `b` if it holds none.
pub open spec fn before_nul(b: Seq<u8>) -> Seq<u8> {
    if exists|k: int| 0 <= k < b.len() && b[k] == 0 {
        b.take(choose|k: int| 0 <= k < b.len() && b[k] == 0 && forall|j: int| 0 <= j < k ==> b[j] != 0)
    } else {
        b
    }
}

/// A fixed-length inline string of `N` bytes, padded with zeros.
pub struct Ps2String<const N: usize> {
    bytes: Vec<u8>,
}

/// Relies on String::push: the character is appended at the end.
#[verifier::external_body]
pub(crate) fn push_char(s: &mut String, c: char)
    ensures
        final(s)@ == old(s)@.push(c),
{
    s.push(c)
}

impl<const N: usize> Ps2String<N> {
    pub closed spec fn view(&self) -> Seq<u8> {
        self.bytes@
    }

    pub closed spec fn wf(&self) -> bool {
        self.bytes@.len() == N
    }

    /// The string whose first bytes are `b`, padded with zeros up to `N`.
    pub fn new(b: &[u8]) -> (r: Self)
        requires
            b@.len() <= N,
        ensures
            r.wf(),
            r.view() == b@ + Seq::new((N - b@.len()) as nat, |i: int| 0u8),
    {
        let mut bytes: Vec<u8> = Vec::new();
        let mut i: usize = 0;
        while i < N
            invariant
                b@.len() <= N,
                i <= N,
                bytes@.len() == i,
                forall|j: int| 0 <= j < i ==> bytes@[j] == if j < b@.len() { b@[j] } else { 0u8 },
            decreases N - i,
        {
            if i < b.len() {
                bytes.push(b[i]);
            } else {
                bytes.push(0);
            }
            i = i + 1;
        }
        let r = Ps2String { bytes };
        assert(r.view() =~= b@ + Seq::new((N - b@.len()) as nat, |i: int| 0u8));
        r
    }

    /// The text: the bytes before the first zero byte, decoded as Latin-1.
    pub fn to_text(&self) -> (r: String)
        ensures
            r@ == latin1(before_nul(self.view())),
    {
        let mut s = String::new();
        let mut i: usize = 0;
        while i < self.bytes.len() && self.bytes[i] != 0
            invariant
                i <= self.bytes@.len(),
                forall|j: int| 0 <= j < i ==> self.bytes@[j] != 0,
                s@ == latin1(self.bytes@.take(i as int)),
            decreases self.bytes@.len() - i,
        {
            push_char(&mut s, self.bytes[i] as char);
            assert(self.bytes@.take(i + 1) == self.bytes@.take(i as int).push(self.bytes@[i as int]));
            i = i + 1;
        }
        proof {
            let b = self.bytes@;
            if i < b.len() {
                let k = choose|k: int|
                    0 <= k < b.len() && b[k] == 0 && forall|j: int| 0 <= j < k ==> b[j] != 0;
                assert(k == i);
            } else {
                assert(b.take(i as int) == b);
            }
            assert(latin1(b.take(i as int)) =~= latin1(before_nul(b)));
        }
        s
    }
}

/// Decoding an inline string built from `b`, whose first zero byte is at
/// position `k`, gives the Latin-1 text of the bytes before `k`, whatever
/// follows them.
pub proof fn lemma_text_before_first_zero(b: Seq<u8>, n: nat, k: int)
    requires
        b.len() <= n,
        0 <= k < b.len(),
        b[k] == 0,
        forall|j: int| 0 <= j < k ==> b[j] != 0,
    ensures
        latin1(before_nul(b + Seq::new((n - b.len()) as nat, |i: int| 0u8))) == latin1(b.take(k)),
{
    let c = b + Seq::new((n - b.len()) as nat, |i: int| 0u8);
    assert(c[k] == 0);
    let k2 = choose|k2: int| 0 <= k2 < c.len() && c[k2] == 0 && forall|j: int| 0 <= j < k2 ==> c[j] != 0;
    if k2 < k {
        assert(c[k2] == b[k2]);
    }
    assert(k2 == k);
    assert(c.take(k) =~= b.take(k));
}

} // verus!
