//! Little-endian readers over a byte slice and a cursor.
//!
//! A reader that fails leaves the cursor behind the last whole item that it read.

use crate::single::Single;
use vstd::prelude::*;

verus! {

/// What a reader reports when the bytes end too early.
pub open spec fn truncated() -> Seq<char> {
    "indice IVF truncado"@
}

/// The unsigned 32-bit number in the four bytes from `at` on, lowest byte first.
pub open spec fn u32_at(bytes: Seq<u8>, at: int) -> u32 {
    (bytes[at] + 0x100 * bytes[at + 1] + 0x1_0000 * bytes[at + 2] + 0x100_0000 * bytes[at
        + 3]) as u32
}

/// The signed 16-bit number in the two bytes from `at` on, lowest byte first.
pub open spec fn i16_at(bytes: Seq<u8>, at: int) -> i16 {
    let unsigned = bytes[at] + 0x100 * bytes[at + 1];
    if unsigned < 0x8000 {
        unsigned as i16
    } else {
        (unsigned - 0x1_0000) as i16
    }
}

/// Where the cursor stands after as many whole items as the bytes from `at` on hold.
pub open spec fn last_whole(bytes: Seq<u8>, at: int, size: int) -> int {
    if at > bytes.len() {
        at
    } else {
        at + (bytes.len() - at) / size * size
    }
}

/// Reads `N` bytes.
pub fn read_bytes<const N: usize>(bytes: &[u8], cursor: &mut usize) -> (read: Result<
    [u8; N],
    String,
>)
    ensures
        match read {
            Ok(out) => {
                &&& *old(cursor) + N <= bytes@.len()
                &&& *final(cursor) == *old(cursor) + N
                &&& out@ == bytes@.subrange(*old(cursor) as int, *old(cursor) + N)
            },
            Err(message) => {
                &&& *old(cursor) + N > bytes@.len()
                &&& *final(cursor) == *old(cursor)
                &&& message@ == truncated()
            },
        },
{
    if *cursor > bytes.len() || bytes.len() - *cursor < N {
        return Err("indice IVF truncado".to_string());
    }
    let start: usize = *cursor;
    let mut out = [0u8;N];
    let mut filled: usize = 0;
    while filled < N
        invariant
            filled <= N,
            start + N <= bytes.len(),
            forall|i: int| 0 <= i < filled ==> #[trigger] out[i] == bytes@[start + i],
        decreases N - filled,
    {
        out[filled] = bytes[start + filled];
        filled = filled + 1;
    }
    *cursor = start + N;
    assert(out@ =~= bytes@.subrange(start as int, start + N));
    Ok(out)
}

/// Reads an unsigned 32-bit number.
pub fn read_u32(bytes: &[u8], cursor: &mut usize) -> (read: Result<u32, String>)
    ensures
        match read {
            Ok(value) => {
                &&& *old(cursor) + 4 <= bytes@.len()
                &&& *final(cursor) == *old(cursor) + 4
                &&& value == u32_at(bytes@, *old(cursor) as int)
            },
            Err(message) => {
                &&& *old(cursor) + 4 > bytes@.len()
                &&& *final(cursor) == *old(cursor)
                &&& message@ == truncated()
            },
        },
{
    let quad = read_bytes::<4>(bytes, cursor)?;
    assert(forall|i: int| 0 <= i < 4 ==> #[trigger] quad@[i] == bytes@[*old(cursor) + i]);
    Ok(
        quad[0] as u32 + 0x100 * (quad[1] as u32) + 0x1_0000 * (quad[2] as u32) + 0x100_0000 * (
        quad[3] as u32),
    )
}

/// Reads a signed 16-bit number.
fn read_i16(bytes: &[u8], cursor: &mut usize) -> (read: Result<i16, String>)
    ensures
        match read {
            Ok(value) => {
                &&& *old(cursor) + 2 <= bytes@.len()
                &&& *final(cursor) == *old(cursor) + 2
                &&& value == i16_at(bytes@, *old(cursor) as int)
            },
            Err(message) => {
                &&& *old(cursor) + 2 > bytes@.len()
                &&& *final(cursor) == *old(cursor)
                &&& message@ == truncated()
            },
        },
{
    let pair = read_bytes::<2>(bytes, cursor)?;
    assert(forall|i: int| 0 <= i < 2 ==> #[trigger] pair@[i] == bytes@[*old(cursor) + i]);
    let unsigned: i32 = pair[0] as i32 + 0x100 * (pair[1] as i32);
    if unsigned < 0x8000 {
        Ok(unsigned as i16)
    } else {
        Ok((unsigned - 0x1_0000) as i16)
    }
}

/// Reads `len` unsigned 32-bit numbers.
pub fn read_u32_vec(bytes: &[u8], cursor: &mut usize, len: usize) -> (read: Result<
    Vec<u32>,
    String,
>)
    ensures
        match read {
            Ok(out) => {
                &&& *old(cursor) + 4 * len <= bytes@.len() || len == 0
                &&& *final(cursor) == *old(cursor) + 4 * len
                &&& out@ == Seq::new(len as nat, |i: int| u32_at(bytes@, *old(cursor) + 4 * i))
            },
            Err(message) => {
                &&& *old(cursor) + 4 * len > bytes@.len() && len > 0
                &&& *final(cursor) == last_whole(bytes@, *old(cursor) as int, 4)
                &&& message@ == truncated()
            },
        },
{
    let mut out: Vec<u32> = Vec::new();
    let mut count: usize = 0;
    while count < len
        invariant
            count <= len,
            *cursor == *old(cursor) + 4 * count,
            count > 0 ==> *cursor <= bytes@.len(),
            out@ == Seq::new(count as nat, |i: int| u32_at(bytes@, *old(cursor) + 4 * i)),
        decreases len - count,
    {
        let value: u32 = read_u32(bytes, cursor)?;
        out.push(value);
        count = count + 1;
    }
    Ok(out)
}

/// Reads `len` single-precision numbers.
pub fn read_f32_vec(bytes: &[u8], cursor: &mut usize, len: usize) -> (read: Result<
    Vec<Single>,
    String,
>)
    ensures
        match read {
            Ok(out) => {
                &&& *old(cursor) + 4 * len <= bytes@.len() || len == 0
                &&& *final(cursor) == *old(cursor) + 4 * len
                &&& out@ == Seq::new(
                    len as nat,
                    |i: int| Single { bits: u32_at(bytes@, *old(cursor) + 4 * i) },
                )
            },
            Err(message) => {
                &&& *old(cursor) + 4 * len > bytes@.len() && len > 0
                &&& *final(cursor) == last_whole(bytes@, *old(cursor) as int, 4)
                &&& message@ == truncated()
            },
        },
{
    let mut out: Vec<Single> = Vec::new();
    let mut count: usize = 0;
    while count < len
        invariant
            count <= len,
            *cursor == *old(cursor) + 4 * count,
            count > 0 ==> *cursor <= bytes@.len(),
            out@ == Seq::new(
                count as nat,
                |i: int| Single { bits: u32_at(bytes@, *old(cursor) + 4 * i) },
            ),
        decreases len - count,
    {
        let bits: u32 = read_u32(bytes, cursor)?;
        out.push(Single::from_bits(bits));
        count = count + 1;
    }
    Ok(out)
}

/// Reads `len` signed 16-bit numbers.
pub fn read_i16_vec(bytes: &[u8], cursor: &mut usize, len: usize) -> (read: Result<
    Vec<i16>,
    String,
>)
    ensures
        match read {
            Ok(out) => {
                &&& *old(cursor) + 2 * len <= bytes@.len() || len == 0
                &&& *final(cursor) == *old(cursor) + 2 * len
                &&& out@ == Seq::new(len as nat, |i: int| i16_at(bytes@, *old(cursor) + 2 * i))
            },
            Err(message) => {
                &&& *old(cursor) + 2 * len > bytes@.len() && len > 0
                &&& *final(cursor) == last_whole(bytes@, *old(cursor) as int, 2)
                &&& message@ == truncated()
            },
        },
{
    let mut out: Vec<i16> = Vec::new();
    let mut count: usize = 0;
    while count < len
        invariant
            count <= len,
            *cursor == *old(cursor) + 2 * count,
            count > 0 ==> *cursor <= bytes@.len(),
            out@ == Seq::new(count as nat, |i: int| i16_at(bytes@, *old(cursor) + 2 * i)),
        decreases len - count,
    {
        let value: i16 = read_i16(bytes, cursor)?;
        out.push(value);
        count = count + 1;
    }
    Ok(out)
}

/// Reads `len` bytes.
pub fn read_u8_vec(bytes: &[u8], cursor: &mut usize, len: usize) -> (read: Result<
    Vec<u8>,
    String,
>)
    ensures
        match read {
            Ok(out) => {
                &&& *old(cursor) + len <= bytes@.len()
                &&& *final(cursor) == *old(cursor) + len
                &&& out@ == bytes@.subrange(*old(cursor) as int, *old(cursor) + len)
            },
            Err(message) => {
                &&& *old(cursor) + len > bytes@.len()
                &&& *final(cursor) == *old(cursor)
                &&& message@ == truncated()
            },
        },
{
    if *cursor > bytes.len() || bytes.len() - *cursor < len {
        return Err("indice IVF truncado".to_string());
    }
    let start: usize = *cursor;
    *cursor = start + len;
    Ok(vstd::slice::slice_to_vec(&bytes[start..start + len]))
}

/// A reader that runs out of bytes has passed all the whole items that there were: as many as fit,
/// and less than one is left.
pub proof fn law_whole_items_are_passed(bytes: Seq<u8>, at: int, size: int)
    requires
        size == 2 || size == 4,
    ensures
        at > bytes.len() ==> last_whole(bytes, at, size) == at,
        at <= bytes.len() ==> {
            let end = last_whole(bytes, at, size);
            at <= end <= bytes.len() < end + size && (end - at) % size == 0
        },
{
    let left = bytes.len() - at;
    if size == 2 {
        assert(left / 2 * 2 % 2 == 0);
    } else {
        assert(left / 4 * 4 % 4 == 0);
    }
}

} // verus!
