//! Little-endian integers and fixed-size records, the units a WAD file is made of.
use vstd::prelude::*;

verus! {

/// The unsigned 16-bit little-endian integer at `at` in `b`.
pub open spec fn le_u16(b: Seq<u8>, at: int) -> int {
    b[at] as int + 256 * (b[at + 1] as int)
}

/// The signed (two's complement) 16-bit little-endian integer at `at` in `b`.
pub open spec fn le_i16(b: Seq<u8>, at: int) -> int {
    if le_u16(b, at) >= 0x8000 {
        le_u16(b, at) - 0x10000
    } else {
        le_u16(b, at)
    }
}

/// The unsigned 32-bit little-endian integer at `at` in `b`.
pub open spec fn le_u32(b: Seq<u8>, at: int) -> int {
    le_u16(b, at) + 0x10000 * le_u16(b, at + 2)
}

/// The signed (two's complement) 32-bit little-endian integer at `at` in `b`.
pub open spec fn le_i32(b: Seq<u8>, at: int) -> int {
    if le_u32(b, at) >= 0x8000_0000 {
        le_u32(b, at) - 0x1_0000_0000
    } else {
        le_u32(b, at)
    }
}

pub fn read_u16(b: &[u8], at: usize) -> (r: u16)
    requires
        at + 2 <= b.len(),
    ensures
        r == le_u16(b@, at as int),
{
    b[at] as u16 + (b[at + 1] as u16) * 256
}

pub fn read_i16(b: &[u8], at: usize) -> (r: i16)
    requires
        at + 2 <= b.len(),
    ensures
        r == le_i16(b@, at as int),
{
    let u = read_u16(b, at);
    if u >= 0x8000 {
        (u as i32 - 0x10000) as i16
    } else {
        u as i16
    }
}

pub fn read_u32(b: &[u8], at: usize) -> (r: u32)
    requires
        at + 4 <= b.len(),
    ensures
        r == le_u32(b@, at as int),
{
    read_u16(b, at) as u32 + (read_u16(b, at + 2) as u32) * 0x10000
}

pub fn read_i32(b: &[u8], at: usize) -> (r: i32)
    requires
        at + 4 <= b.len(),
    ensures
        r == le_i32(b@, at as int),
{
    let u = read_u32(b, at);
    if u >= 0x8000_0000 {
        (u as i64 - 0x1_0000_0000) as i32
    } else {
        u as i32
    }
}

/// The eight bytes at `at` in `b`, as an array.
pub fn read_array8(b: &[u8], at: usize) -> (r: [u8; 8])
    requires
        at + 8 <= b.len(),
    ensures
        r@ == b@.subrange(at as int, at + 8),
{
    let mut r = [0u8; 8];
    let mut k: usize = 0;
    while k < 8
        invariant
            k <= 8,
            at + 8 <= b.len(),
            forall|j: int| 0 <= j < k ==> r@[j] == b@[at + j],
        decreases 8 - k,
    {
        r[k] = b[at + k];
        k = k + 1;
    }
    assert(r@ =~= b@.subrange(at as int, at + 8));
    r
}

/// The four bytes at `at` in `b`, as an array.
pub fn read_array4(b: &[u8], at: usize) -> (r: [u8; 4])
    requires
        at + 4 <= b.len(),
    ensures
        r@ == b@.subrange(at as int, at + 4),
{
    let mut r = [0u8; 4];
    let mut k: usize = 0;
    while k < 4
        invariant
            k <= 4,
            at + 4 <= b.len(),
            forall|j: int| 0 <= j < k ==> r@[j] == b@[at + j],
        decreases 4 - k,
    {
        r[k] = b[at + k];
        k = k + 1;
    }
    assert(r@ =~= b@.subrange(at as int, at + 4));
    r
}

} // verus!

verus! {

/// A record of fixed size that a lump holds a packed array of.
pub trait Record: Sized {
    /// The record's size in bytes.
    spec fn spec_size() -> nat;

    fn size() -> (n: usize)
        ensures
            n == Self::spec_size(),
            n > 0,
    ;

    /// Whether the record in `rec` (its first `spec_size()` bytes) decodes without overflow.
    spec fn spec_decodable(rec: Seq<u8>) -> bool;

    fn is_decodable(b: &[u8], at: usize) -> (r: bool)
        requires
            at + Self::spec_size() <= b.len(),
        ensures
            r == Self::spec_decodable(b@.subrange(at as int, at + Self::spec_size())),
    ;

    /// Whether `v` is the value that the record in `rec` (its first `spec_size()` bytes) stands for.
    spec fn spec_decodes_to(rec: Seq<u8>, v: Self) -> bool;

    fn decode(b: &[u8], at: usize) -> (r: Self)
        requires
            at + Self::spec_size() <= b.len(),
            Self::spec_decodable(b@.subrange(at as int, at + Self::spec_size())),
        ensures
            Self::spec_decodes_to(b@.subrange(at as int, at + Self::spec_size()), r),
    ;
}

/// The bytes of record `i` in `bytes`.
pub open spec fn record_bytes<T: Record>(bytes: Seq<u8>, i: int) -> Seq<u8> {
    bytes.subrange(i * T::spec_size(), (i + 1) * T::spec_size())
}

/// How many whole records `bytes` holds.
pub open spec fn record_count<T: Record>(bytes: Seq<u8>) -> int {
    bytes.len() as int / T::spec_size() as int
}

/// Whether `bytes` is a whole number of records.
pub open spec fn records_fit<T: Record>(bytes: Seq<u8>) -> bool {
    bytes.len() as int % T::spec_size() as int == 0
}

/// Whether every whole record in `bytes` decodes.
pub open spec fn all_decodable<T: Record>(bytes: Seq<u8>) -> bool {
    forall|i: int| 0 <= i < record_count::<T>(bytes) ==> T::spec_decodable(#[trigger] record_bytes::<T>(bytes, i))
}

/// Whether `v` holds the values of the whole records in `bytes`, in order.
pub open spec fn decodes_records<T: Record>(bytes: Seq<u8>, v: Seq<T>) -> bool {
    &&& v.len() == record_count::<T>(bytes)
    &&& forall|i: int| 0 <= i < v.len() ==> T::spec_decodes_to(#[trigger] record_bytes::<T>(bytes, i), v[i])
}

proof fn lemma_record_in_bounds(i: int, n: int, len: int)
    requires
        n > 0,
        0 <= i < len / n,
        len >= 0,
    ensures
        0 <= i * n,
        (i + 1) * n <= len,
        (i + 1) * n == i * n + n,
{
    assert((i + 1) * n == i * n + n) by (nonlinear_arith);
    assert(i * n >= 0) by (nonlinear_arith)
        requires
            i >= 0,
            n > 0,
    ;
    assert((i + 1) * n <= len) by (nonlinear_arith)
        requires
            n > 0,
            i < len / n,
            len >= 0,
    {
        assert(len == n * (len / n) + len % n);
    }
}

/// Whether `bytes` can be decoded as a packed array of records: where it is a whole
/// number of records, each of them decodes.
pub fn records_decodable<T: Record>(bytes: &[u8]) -> (r: bool)
    ensures
        r == (records_fit::<T>(bytes@) ==> all_decodable::<T>(bytes@)),
{
    let size = T::size();
    let len = bytes.len();
    if len % size != 0 {
        return true;
    }
    let count = len / size;
    let mut i: usize = 0;
    let mut at: usize = 0;
    while i < count
        invariant
            size == T::spec_size(),
            size > 0,
            len == bytes@.len(),
            count == record_count::<T>(bytes@),
            i <= count,
            at == i * size,
            records_fit::<T>(bytes@),
            forall|k: int| 0 <= k < i ==> T::spec_decodable(#[trigger] record_bytes::<T>(bytes@, k)),
        decreases count - i,
    {
        proof {
            lemma_record_in_bounds(i as int, size as int, len as int);
        }
        if !T::is_decodable(bytes, at) {
            assert(!T::spec_decodable(record_bytes::<T>(bytes@, i as int)));
            return false;
        }
        i = i + 1;
        at = at + size;
    }
    true
}

/// Decodes `bytes` as a packed array of records, refusing a lump with bytes left over.
pub fn bytes_to_vec<T: Record>(bytes: &[u8]) -> (r: Result<Vec<T>, crate::wad::error::WadError>)
    requires
        records_fit::<T>(bytes@) ==> all_decodable::<T>(bytes@),
    ensures
        r is Ok <==> records_fit::<T>(bytes@),
        r matches Ok(v) ==> decodes_records::<T>(bytes@, v@),
        r matches Err(e) ==> e == crate::wad::error::WadError::RecordSize,
{
    let size = T::size();
    let len = bytes.len();
    if len % size != 0 {
        return Err(crate::wad::error::WadError::RecordSize);
    }
    let count = len / size;
    let mut out: Vec<T> = Vec::new();
    let mut i: usize = 0;
    let mut at: usize = 0;
    while i < count
        invariant
            size == T::spec_size(),
            size > 0,
            len == bytes@.len(),
            count == record_count::<T>(bytes@),
            records_fit::<T>(bytes@),
            all_decodable::<T>(bytes@),
            i <= count,
            at == i * size,
            out@.len() == i,
            forall|k: int| 0 <= k < i ==> T::spec_decodes_to(#[trigger] record_bytes::<T>(bytes@, k), out@[k]),
        decreases count - i,
    {
        proof {
            lemma_record_in_bounds(i as int, size as int, len as int);
            assert(T::spec_decodable(record_bytes::<T>(bytes@, i as int)));
        }
        let rec = T::decode(bytes, at);
        out.push(rec);
        i = i + 1;
        at = at + size;
    }
    Ok(out)
}

} // verus!
