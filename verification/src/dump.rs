//! A file's bytes as text: the text itself where it is UTF-8, a hexadecimal
//! dump of sixteen bytes a line where it is not.

use vstd::prelude::*;
use vstd::slice::slice_subrange;
use vstd::utf8::valid_utf8;

verus! {

/// The digit for a value below sixteen, in lower case.
pub open spec fn hex_char(d: int) -> u8 {
    if d < 10 {
        (0x30 + d) as u8
    } else {
        (0x57 + d) as u8
    }
}

/// A number in hexadecimal digits, without leading zeros.
pub open spec fn hex_text(n: nat) -> Seq<u8>
    decreases n,
{
    if n < 16 {
        seq![hex_char(n as int)]
    } else {
        hex_text(n / 16).push(hex_char((n % 16) as int))
    }
}

/// `count` copies of one byte.
pub open spec fn repeat(b: u8, count: int) -> Seq<u8> {
    Seq::new(if count < 0 { 0 } else { count as nat }, |i: int| b)
}

/// An address as the dump shows it: in hexadecimal, filled with zeros from
/// the left to eight digits.
pub open spec fn address_text(n: nat) -> Seq<u8> {
    repeat(0x30, 8 - hex_text(n).len()) + hex_text(n)
}

/// The bytes of a chunk in hexadecimal, two digits and a space for each.
pub open spec fn cells_text(chunk: Seq<u8>) -> Seq<u8>
    decreases chunk.len(),
{
    if chunk.len() == 0 {
        Seq::empty()
    } else {
        cells_text(chunk.drop_last()) + seq![
            hex_char(chunk.last() as int / 16),
            hex_char(chunk.last() as int % 16),
            0x20u8,
        ]
    }
}

/// A byte as the dump shows it between the bars: itself where it is a
/// printable ASCII character, a dot where it is not.
pub open spec fn shown_byte(b: u8) -> u8 {
    if 32 <= b <= 126 {
        b
    } else {
        0x2e
    }
}

/// The characters of a chunk between the bars.
pub open spec fn shown_text(chunk: Seq<u8>) -> Seq<u8> {
    Seq::new(chunk.len(), |i: int| shown_byte(chunk[i]))
}

/// One line of the dump: the address and a colon, the bytes in hexadecimal,
/// blanks where a last line is short of sixteen bytes, then the bytes as
/// characters between two bars.
pub open spec fn dump_line(chunk: Seq<u8>, address: nat) -> Seq<u8> {
    address_text(address) + seq![0x3au8, 0x20u8] + cells_text(chunk) + repeat(
        0x20,
        3 * (16 - chunk.len()),
    ) + seq![0x7cu8] + shown_text(chunk) + seq![0x7cu8, 0x0au8]
}

/// The dump of a buffer that was read at `offset`: one line for every
/// sixteen bytes, the last one shorter where the length asks for it.
pub open spec fn dump_text(buffer: Seq<u8>, offset: nat) -> Seq<u8>
    decreases buffer.len(),
{
    if buffer.len() == 0 {
        Seq::empty()
    } else if buffer.len() <= 16 {
        dump_line(buffer, offset)
    } else {
        dump_line(buffer.take(16), offset) + dump_text(buffer.skip(16), offset + 16)
    }
}

/// What is shown of a buffer: the buffer and a line feed where it is valid
/// UTF-8, its dump where it is not.
pub open spec fn shown(buffer: Seq<u8>, offset: nat) -> Seq<u8> {
    if valid_utf8(buffer) {
        buffer.push(0x0a)
    } else {
        dump_text(buffer, offset)
    }
}

/// `std::str::from_utf8`, which succeeds exactly on the byte sequences that
/// are valid UTF-8.
#[verifier::external_body]
fn is_utf8(buffer: &[u8]) -> (valid: bool)
    ensures
        valid == valid_utf8(buffer@),
{
    std::str::from_utf8(buffer).is_ok()
}

fn hex_char_of(d: u8) -> (c: u8)
    requires
        d < 16,
    ensures
        c == hex_char(d as int),
{
    if d < 10 {
        0x30 + d
    } else {
        0x57 + d
    }
}

/// Appends a number in hexadecimal digits.
fn push_hex(out: &mut Vec<u8>, n: u64)
    ensures
        final(out)@ == old(out)@ + hex_text(n as nat),
    decreases n,
{
    if n >= 16 {
        push_hex(out, n / 16);
    }
    out.push(hex_char_of((n % 16) as u8));
    proof {
        assert(final(out)@ =~= old(out)@ + hex_text(n as nat));
    }
}

/// Appends `count` copies of a byte.
fn push_repeat(out: &mut Vec<u8>, b: u8, count: usize)
    ensures
        final(out)@ == old(out)@ + repeat(b, count as int),
{
    let mut i: usize = 0;
    assert(out@ =~= old(out)@ + repeat(b, 0));
    while i < count
        invariant
            i <= count,
            out@ == old(out)@ + repeat(b, i as int),
        decreases count - i,
    {
        out.push(b);
        i = i + 1;
        assert(out@ =~= old(out)@ + repeat(b, i as int));
    }
}

/// Appends an address, filled with zeros to eight digits.
fn push_address(out: &mut Vec<u8>, address: u64)
    ensures
        final(out)@ == old(out)@ + address_text(address as nat),
{
    let mut digits: Vec<u8> = Vec::new();
    push_hex(&mut digits, address);
    assert(digits@ =~= hex_text(address as nat));
    if digits.len() < 8 {
        push_repeat(out, 0x30, 8 - digits.len());
    }
    let ghost start = out@;
    assert(start =~= old(out)@ + repeat(0x30, 8 - digits@.len()));
    let mut i: usize = 0;
    assert(out@ =~= start + digits@.take(0));
    while i < digits.len()
        invariant
            i <= digits@.len(),
            out@ == start + digits@.take(i as int),
        decreases digits@.len() - i,
    {
        out.push(digits[i]);
        i = i + 1;
        assert(out@ =~= start + digits@.take(i as int));
    }
    assert(digits@.take(i as int) =~= digits@);
    assert(out@ =~= old(out)@ + address_text(address as nat));
}

/// Appends the bytes of a chunk in hexadecimal.
fn push_cells(out: &mut Vec<u8>, chunk: &[u8])
    ensures
        final(out)@ == old(out)@ + cells_text(chunk@),
{
    let mut k: usize = 0;
    assert(out@ =~= old(out)@ + cells_text(chunk@.take(0)));
    while k < chunk.len()
        invariant
            k <= chunk@.len(),
            out@ == old(out)@ + cells_text(chunk@.take(k as int)),
        decreases chunk@.len() - k,
    {
        let b: u8 = chunk[k];
        let ghost before = out@;
        out.push(hex_char_of(b / 16));
        out.push(hex_char_of(b % 16));
        out.push(0x20);
        proof {
            assert(chunk@.take(k + 1).drop_last() =~= chunk@.take(k as int));
            assert(chunk@.take(k + 1).last() == b);
            assert(out@ =~= before + seq![
                hex_char(b as int / 16),
                hex_char(b as int % 16),
                0x20u8,
            ]);
            assert(out@ =~= old(out)@ + cells_text(chunk@.take(k + 1)));
        }
        k = k + 1;
    }
    assert(chunk@.take(k as int) =~= chunk@);
}

/// Appends the bytes of a chunk as characters.
fn push_shown(out: &mut Vec<u8>, chunk: &[u8])
    ensures
        final(out)@ == old(out)@ + shown_text(chunk@),
{
    let mut j: usize = 0;
    assert(out@ =~= old(out)@ + shown_text(chunk@.take(0)));
    while j < chunk.len()
        invariant
            j <= chunk@.len(),
            out@ == old(out)@ + shown_text(chunk@.take(j as int)),
        decreases chunk@.len() - j,
    {
        let b: u8 = chunk[j];
        if 32 <= b && b <= 126 {
            out.push(b);
        } else {
            out.push(0x2e);
        }
        j = j + 1;
        assert(out@ =~= old(out)@ + shown_text(chunk@.take(j as int)));
    }
    assert(chunk@.take(j as int) =~= chunk@);
}

/// Appends one line of the dump.
fn push_dump_line(out: &mut Vec<u8>, chunk: &[u8], address: u64)
    requires
        chunk@.len() <= 16,
    ensures
        final(out)@ == old(out)@ + dump_line(chunk@, address as nat),
{
    push_address(out, address);
    out.push(0x3a);
    out.push(0x20);
    let ghost first = out@;
    assert(first =~= old(out)@ + (address_text(address as nat) + seq![0x3au8, 0x20u8]));
    push_cells(out, chunk);
    push_repeat(out, 0x20, 3 * (16 - chunk.len()));
    let ghost second = out@;
    assert(second =~= first + (cells_text(chunk@) + repeat(0x20, 3 * (16 - chunk@.len()))));
    out.push(0x7c);
    push_shown(out, chunk);
    out.push(0x7c);
    out.push(0x0a);
    assert(out@ =~= second + (seq![0x7cu8] + shown_text(chunk@) + seq![0x7cu8, 0x0au8]));
    assert(out@ =~= old(out)@ + dump_line(chunk@, address as nat));
}

/// Writes the hexadecimal dump of a buffer that was read at `offset`.
pub fn render_dump(buffer: &[u8], offset: u64) -> (out: Vec<u8>)
    requires
        offset + buffer@.len() <= u64::MAX,
    ensures
        out@ == dump_text(buffer@, offset as nat),
{
    let mut out: Vec<u8> = Vec::new();
    let mut pos: usize = 0;
    assert(buffer@.skip(0) =~= buffer@);
    while pos < buffer.len()
        invariant
            pos <= buffer@.len(),
            offset + buffer@.len() <= u64::MAX,
            dump_text(buffer@, offset as nat) == out@ + dump_text(
                buffer@.skip(pos as int),
                (offset + pos) as nat,
            ),
        decreases buffer@.len() - pos,
    {
        let left: usize = buffer.len() - pos;
        let n: usize = if left <= 16 {
            left
        } else {
            16
        };
        let chunk = slice_subrange(buffer, pos, pos + n);
        let ghost before = out@;
        let ghost rest = buffer@.skip(pos as int);
        push_dump_line(&mut out, chunk, offset + pos as u64);
        proof {
            assert(chunk@ =~= rest.take(n as int));
            assert(rest.skip(n as int) =~= buffer@.skip(pos + n));
            if left <= 16 {
                assert(rest.take(n as int) =~= rest);
                assert(dump_text(buffer@.skip(pos + n), (offset + pos + n) as nat)
                    =~= Seq::<u8>::empty());
            }
            assert(before + dump_text(rest, (offset + pos) as nat) =~= out@ + dump_text(
                buffer@.skip(pos + n),
                (offset + pos + n) as nat,
            ));
        }
        pos = pos + n;
    }
    assert(out@ + Seq::<u8>::empty() =~= out@);
    out
}

/// What to show of a buffer that was read at `offset`: the buffer itself and
/// a line feed where it is valid UTF-8, its hexadecimal dump where it is not.
pub fn show_bytes(buffer: &[u8], offset: u64) -> (out: Vec<u8>)
    requires
        offset + buffer@.len() <= u64::MAX,
    ensures
        out@ == shown(buffer@, offset as nat),
{
    if is_utf8(buffer) {
        let mut out: Vec<u8> = Vec::new();
        let mut i: usize = 0;
        while i < buffer.len()
            invariant
                i <= buffer@.len(),
                out@ == buffer@.take(i as int),
            decreases buffer@.len() - i,
        {
            out.push(buffer[i]);
            i = i + 1;
            assert(out@ =~= buffer@.take(i as int));
        }
        assert(buffer@.take(i as int) =~= buffer@);
        out.push(0x0a);
        out
    } else {
        render_dump(buffer, offset)
    }
}

} // verus!
