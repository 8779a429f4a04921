use vstd::prelude::*;
use byteorder::{BigEndian, ByteOrder};

verus! {

/// The unsigned number held big-endian in the first four bytes of `s`.
pub open spec fn be_u32(s: Seq<u8>) -> int
    recommends
        s.len() >= 4,
{
    s[0] * 16777216 + s[1] * 65536 + s[2] * 256 + s[3]
}

/// The same four bytes read as a two's-complement signed number.
pub open spec fn be_i32(s: Seq<u8>) -> int
    recommends
        s.len() >= 4,
{
    if be_u32(s) < 0x8000_0000 {
        be_u32(s)
    } else {
        be_u32(s) - 0x1_0000_0000
    }
}

/// The unsigned number held big-endian in the first eight bytes of `s`.
pub open spec fn be_u64(s: Seq<u8>) -> int
    recommends
        s.len() >= 8,
{
    be_u32(s) * 0x1_0000_0000 + be_u32(s.subrange(4, 8))
}

/// The same eight bytes read as a two's-complement signed number.
pub open spec fn be_i64(s: Seq<u8>) -> int
    recommends
        s.len() >= 8,
{
    if be_u64(s) < 0x8000_0000_0000_0000 {
        be_u64(s)
    } else {
        be_u64(s) - 0x1_0000_0000_0000_0000
    }
}

/// Relies on byteorder's `BigEndian::read_i64`: the first eight bytes as a
/// big-endian two's-complement number (it panics on fewer than eight).
#[verifier::external_body]
fn read_i64_be(bytes: &Vec<u8>) -> (r: i64)
    requires
        bytes@.len() >= 8,
    ensures
        r == be_i64(bytes@),
{
    BigEndian::read_i64(bytes.as_slice())
}

/// Relies on byteorder's `BigEndian::read_u32`: the first four bytes as a
/// big-endian unsigned number (it panics on fewer than four).
#[verifier::external_body]
fn read_u32_be(bytes: &Vec<u8>) -> (r: u32)
    requires
        bytes@.len() >= 4,
    ensures
        r == be_u32(bytes@),
{
    BigEndian::read_u32(bytes.as_slice())
}

/// Relies on byteorder's `BigEndian::read_i32`: the first four bytes as a
/// big-endian two's-complement number (it panics on fewer than four).
#[verifier::external_body]
fn read_i32_be(bytes: &Vec<u8>) -> (r: i32)
    requires
        bytes@.len() >= 4,
    ensures
        r == be_i32(bytes@),
{
    BigEndian::read_i32(bytes.as_slice())
}

/// A value that can write itself as bytes.
pub trait Binaryable {
    fn as_binary(&self) -> Vec<u8>;
}

/// `data` with its length in front, as four big-endian bytes (the length
/// is taken modulo 2^32).
pub fn padded(data: Vec<u8>) -> (r: Vec<u8>)
    ensures
        r@.len() == data@.len() + 4,
        data@.len() <= u32::MAX ==> be_u32(r@) == data@.len(),
        r@.subrange(4, r@.len() as int) == data@,
{
    let mut out = u32_as_bytes(data.len() as u32);
    let ghost head = out@;
    let mut k: usize = 0;
    while k < data.len()
        invariant
            k <= data@.len(),
            head.len() == 4,
            out@ == head + data@.subrange(0, k as int),
        decreases data@.len() - k,
    {
        out.push(data[k]);
        k = k + 1;
        proof {
            assert(out@ =~= head + data@.subrange(0, k as int));
        }
    }
    proof {
        assert(data@.subrange(0, data@.len() as int) =~= data@);
        assert(out@.subrange(4, out@.len() as int) =~= data@);
        assert(out@.subrange(0, 4) =~= head);
    }
    out
}

/// Every item written with its length in front, all of it with the total
/// length in front.
pub fn vec_as_bytes<T: Binaryable>(data: &Vec<T>) -> (r: Vec<u8>)
    ensures
        r@.len() >= 4,
        r@.len() - 4 <= u32::MAX ==> be_u32(r@) == r@.len() - 4,
{
    let mut body: Vec<u8> = Vec::new();
    let mut k: usize = 0;
    while k < data.len()
        invariant
            k <= data@.len(),
        decreases data@.len() - k,
    {
        let mut item = padded(data[k].as_binary());
        body.append(&mut item);
        k = k + 1;
    }
    padded(body)
}

/// Four bytes, most significant first.
pub fn u32_as_bytes(input: u32) -> (r: Vec<u8>)
    ensures
        r@.len() == 4,
        be_u32(r@) == input,
{
    let b0 = (input / 16777216) as u8;
    let b1 = ((input / 65536) % 256) as u8;
    let b2 = ((input / 256) % 256) as u8;
    let b3 = (input % 256) as u8;
    let r = vec![b0, b1, b2, b3];
    assert(b0 * 16777216 + b1 * 65536 + b2 * 256 + b3 == input) by (nonlinear_arith)
        requires
            b0 == input / 16777216,
            b1 == (input / 65536) % 256,
            b2 == (input / 256) % 256,
            b3 == input % 256,
            0 <= input < 0x1_0000_0000,
    ;
    r
}

/// Four bytes of the two's-complement form, most significant first.
pub fn i32_as_bytes(input: i32) -> (r: Vec<u8>)
    ensures
        r@.len() == 4,
        be_i32(r@) == input,
{
    let u: u32 = if input >= 0 {
        input as u32
    } else {
        (input as i64 + 0x1_0000_0000) as u32
    };
    u32_as_bytes(u)
}

/// Eight bytes of the two's-complement form, most significant first.
pub fn i64_as_bytes(input: i64) -> (r: Vec<u8>)
    ensures
        r@.len() == 8,
        be_i64(r@) == input,
{
    let u: u64 = if input >= 0 {
        input as u64
    } else {
        (input as i128 + 0x1_0000_0000_0000_0000) as u64
    };
    let hi: u32 = (u / 0x1_0000_0000) as u32;
    let lo: u32 = (u % 0x1_0000_0000) as u32;
    let mut r = u32_as_bytes(hi);
    let ghost head = r@;
    let mut tail = u32_as_bytes(lo);
    let ghost tl = tail@;
    r.append(&mut tail);
    assert(r@.subrange(4, 8) =~= tl);
    assert(be_u32(r@) == be_u32(head));
    assert(u == hi * 0x1_0000_0000 + lo);
    r
}

/// Copies `bytes[off .. off + n]`.
pub fn copy_range(bytes: &Vec<u8>, off: usize, n: usize) -> (r: Vec<u8>)
    requires
        off + n <= bytes@.len(),
    ensures
        r@ == bytes@.subrange(off as int, off + n),
{
    let mut out: Vec<u8> = Vec::new();
    let total = bytes.len();
    let mut k: usize = 0;
    while k < n
        invariant
            total == bytes@.len(),
            off + n <= bytes@.len(),
            k <= n,
            out@ == bytes@.subrange(off as int, off + k),
        decreases n - k,
    {
        out.push(bytes[off + k]);
        k = k + 1;
        proof {
            assert(out@ =~= bytes@.subrange(off as int, off + k));
        }
    }
    out
}

/// The big-endian `u32` at byte offset `off`.
pub fn u32_at(bytes: &Vec<u8>, off: usize) -> (r: u32)
    requires
        off + 4 <= bytes@.len(),
    ensures
        r == be_u32(bytes@.subrange(off as int, off + 4)),
{
    read_u32_be(&copy_range(bytes, off, 4))
}

/// The big-endian `i32` at byte offset `off`.
pub fn i32_at(bytes: &Vec<u8>, off: usize) -> (r: i32)
    requires
        off + 4 <= bytes@.len(),
    ensures
        r == be_i32(bytes@.subrange(off as int, off + 4)),
{
    read_i32_be(&copy_range(bytes, off, 4))
}

/// The big-endian `i64` at byte offset `off`.
pub fn i64_at(bytes: &Vec<u8>, off: usize) -> (r: i64)
    requires
        off + 8 <= bytes@.len(),
    ensures
        r == be_i64(bytes@.subrange(off as int, off + 8)),
{
    read_i64_be(&copy_range(bytes, off, 8))
}

/// What a prefix says about the bytes inside it.
pub proof fn lemma_prefix_sub(f: Seq<u8>, o: Seq<u8>, a: int, b: int)
    requires
        f.len() >= o.len(),
        f.subrange(0, o.len() as int) == o,
        0 <= a <= b <= o.len(),
    ensures
        f.subrange(a, b) == o.subrange(a, b),
{
    assert(f.subrange(a, b) =~= o.subrange(a, b)) by {
        assert forall|i: int| 0 <= i < b - a implies f.subrange(a, b)[i] == o.subrange(a, b)[i] by {
            assert(f[a + i] == f.subrange(0, o.len() as int)[a + i]);
        }
    }
}

/// Appends `more` to `out`.
pub fn append_bytes(out: &mut Vec<u8>, more: Vec<u8>)
    ensures
        final(out)@ == old(out)@ + more@,
{
    let mut m = more;
    out.append(&mut m);
}

/// The first `amount` bytes and the rest.
pub fn pop_bytes_from_vec(binary_data: Vec<u8>, amount: u32) -> (r: (Vec<u8>, Vec<u8>))
    requires
        amount <= binary_data@.len(),
    ensures
        r.0@ == binary_data@.subrange(0, amount as int),
        r.1@ == binary_data@.subrange(amount as int, binary_data@.len() as int),
{
    let mut front: Vec<u8> = Vec::new();
    let mut back: Vec<u8> = Vec::new();
    let n = binary_data.len();
    let a = amount as usize;
    let mut k: usize = 0;
    while k < n
        invariant
            n == binary_data@.len(),
            a <= n,
            k <= n,
            k <= a ==> front@ == binary_data@.subrange(0, k as int) && back@.len() == 0,
            k > a ==> front@ == binary_data@.subrange(0, a as int) && back@ == binary_data@.subrange(
                a as int,
                k as int,
            ),
        decreases n - k,
    {
        if k < a {
            front.push(binary_data[k]);
        } else {
            back.push(binary_data[k]);
        }
        k = k + 1;
        proof {
            if k <= a {
                assert(front@ =~= binary_data@.subrange(0, k as int));
            } else {
                assert(back@ =~= binary_data@.subrange(a as int, k as int));
                assert(front@ =~= binary_data@.subrange(0, a as int));
            }
        }
    }
    proof {
        if n == a {
            assert(back@ =~= binary_data@.subrange(a as int, n as int));
        }
    }
    (front, back)
}

/// A big-endian `u32` off the front, and the rest.
pub fn pop_u32(binary_data: Vec<u8>) -> (r: (u32, Vec<u8>))
    requires
        binary_data@.len() >= 4,
    ensures
        r.0 == be_u32(binary_data@),
        r.1@ == binary_data@.subrange(4, binary_data@.len() as int),
{
    let (value_data, rest) = pop_bytes_from_vec(binary_data, 4);
    (read_u32_be(&value_data), rest)
}

/// A big-endian `i32` off the front, and the rest.
pub fn pop_i32(binary_data: Vec<u8>) -> (r: (i32, Vec<u8>))
    requires
        binary_data@.len() >= 4,
    ensures
        r.0 == be_i32(binary_data@),
        r.1@ == binary_data@.subrange(4, binary_data@.len() as int),
{
    let (value_data, rest) = pop_bytes_from_vec(binary_data, 4);
    (read_i32_be(&value_data), rest)
}

/// One byte off the front, and the rest.
pub fn pop_u8(binary_data: Vec<u8>) -> (r: (u8, Vec<u8>))
    requires
        binary_data@.len() >= 1,
    ensures
        r.0 == binary_data@[0],
        r.1@ == binary_data@.subrange(1, binary_data@.len() as int),
{
    let (value_data, rest) = pop_bytes_from_vec(binary_data, 1);
    (value_data[0], rest)
}

/// A length-prefixed block off the front, and the rest.
pub fn pop_padded(binary_data: Vec<u8>) -> (r: (Vec<u8>, Vec<u8>))
    requires
        binary_data@.len() >= 4,
        be_u32(binary_data@) <= binary_data@.len() - 4,
    ensures
        r.0@ == binary_data@.subrange(4, 4 + be_u32(binary_data@)),
        r.1@ == binary_data@.subrange(4 + be_u32(binary_data@), binary_data@.len() as int),
{
    let ghost all = binary_data@;
    let (pad_amount, rest) = pop_u32(binary_data);
    let r = pop_bytes_from_vec(rest, pad_amount);
    proof {
        assert(r.0@ =~= all.subrange(4, 4 + be_u32(all)));
        assert(r.1@ =~= all.subrange(4 + be_u32(all), all.len() as int));
    }
    r
}

} // verus!
