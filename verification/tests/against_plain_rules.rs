use hex_grid::dump::{render_dump, show_bytes};
use hex_grid::offset::parse_offset;
use hex_grid::patch::{decode_patch, DecodeError};

/// The value of a digit in the given base, by the plain rule.
fn digit(c: char, radix: u64) -> Option<u64> {
    let value = match c {
        '0'..='9' => c as u64 - '0' as u64,
        'a'..='z' => c as u64 - 'a' as u64 + 10,
        'A'..='Z' => c as u64 - 'A' as u64 + 10,
        _ => return None,
    };
    if value < radix {
        Some(value)
    } else {
        None
    }
}

/// An optional `+`, then one or more digits, the value within 64 bits.
fn literal(text: &[char], radix: u64) -> Option<u64> {
    let digits = if !text.is_empty() && text[0] == '+' { &text[1..] } else { text };
    if digits.is_empty() {
        return None;
    }
    let mut value: u128 = 0;
    for c in digits.iter() {
        let d = digit(*c, radix)?;
        value = value * radix as u128 + d as u128;
        if value > u128::MAX / 64 {
            value = u128::MAX / 64;
        }
    }
    if value <= u64::MAX as u128 {
        Some(value as u64)
    } else {
        None
    }
}

fn offset_by_rule(text: &str) -> Option<u64> {
    let chars: Vec<char> = text.chars().collect();
    if chars.len() >= 2 && chars[0] == '0' && chars[1] == 'x' {
        literal(&chars[2..], 16)
    } else {
        literal(&chars, 10)
    }
}

#[test]
fn offsets_follow_the_plain_rule_on_short_texts() {
    let alphabet = ['0', '1', '9', 'a', 'f', 'g', 'F', 'x', 'X', '+', '-', ' ', '_', '\u{e9}'];
    let mut texts: Vec<String> = vec![String::new()];
    let mut last: Vec<String> = vec![String::new()];
    for _ in 0..4 {
        let mut next = Vec::new();
        for text in last.iter() {
            for c in alphabet.iter() {
                let mut longer = text.clone();
                longer.push(*c);
                next.push(longer);
            }
        }
        texts.extend(next.iter().cloned());
        last = next;
    }
    assert_eq!(texts.len(), 1 + 14 + 196 + 2744 + 38416);
    for text in texts.iter() {
        assert_eq!(parse_offset(text).ok(), offset_by_rule(text));
    }
}

#[test]
fn offsets_follow_the_plain_rule_near_the_largest_value() {
    let texts = [
        "18446744073709551614",
        "18446744073709551615",
        "18446744073709551616",
        "18446744073709551625",
        "28446744073709551615",
        "018446744073709551615",
        "0000000000000000000000018446744073709551615",
        "+18446744073709551615",
        "184467440737095516150",
        "0xfffffffffffffffe",
        "0xffffffffffffffff",
        "0x10000000000000000",
        "0x0ffffffffffffffff",
        "0x00000000000000000000ffffffffffffffff",
        "0x+ffffffffffffffff",
        "0xfffffffffffffffff",
        "0xFFFFFFFFFFFFFFFF",
        "99999999999999999999999999999999999999999999",
        "0xffffffffffffffffffffffffffffffffffffffffff",
        "1844674407370955161x",
        "0xfffffffffffffffg",
    ];
    for text in texts.iter() {
        assert_eq!(parse_offset(text).ok(), offset_by_rule(text));
    }
    assert_eq!(parse_offset("0x0ffffffffffffffff").ok(), Some(u64::MAX));
    assert_eq!(parse_offset("184467440737095516150").ok(), None);
}

fn nibble(b: u8) -> Option<u8> {
    match b {
        b'0'..=b'9' => Some(b - b'0'),
        b'a'..=b'f' => Some(b - b'a' + 10),
        b'A'..=b'F' => Some(b - b'A' + 10),
        _ => None,
    }
}

fn decode_by_rule(data: &[u8]) -> Result<Vec<u8>, DecodeError> {
    if data.len() % 2 != 0 {
        return Err(DecodeError::OddLength);
    }
    for (index, b) in data.iter().enumerate() {
        if nibble(*b).is_none() {
            return Err(DecodeError::InvalidCharacter { c: *b as char, index });
        }
    }
    Ok((0..data.len() / 2)
        .map(|i| nibble(data[2 * i]).unwrap() * 16 + nibble(data[2 * i + 1]).unwrap())
        .collect())
}

#[test]
fn every_pair_of_bytes_decodes_by_the_plain_rule() {
    for high in 0..=255u8 {
        for low in 0..=255u8 {
            let data = [high, low];
            assert_eq!(decode_patch(&data), decode_by_rule(&data));
        }
    }
}

#[test]
fn longer_texts_decode_by_the_plain_rule() {
    let mut state: u64 = 99;
    let pool = b"0123456789abcdefABCDEF0123456789abcdefABCDEFgG xz\n";
    for round in 0..4000 {
        let len = round % 13;
        let mut data = Vec::new();
        for _ in 0..len {
            state = state.wrapping_mul(6364136223846793005).wrapping_add(1442695040888963407);
            data.push(pool[((state >> 33) % pool.len() as u64) as usize]);
        }
        assert_eq!(decode_patch(&data), decode_by_rule(&data));
    }
}

fn continuation(b: u8) -> bool {
    b & 0xc0 == 0x80
}

/// Length of the well-formed scalar that `bytes` begins with, by the rule of
/// leading and continuation bytes, shortest form and no surrogates.
fn first_scalar(bytes: &[u8]) -> Option<usize> {
    let b = bytes;
    if b.is_empty() {
        return None;
    }
    if b[0] < 0x80 {
        return Some(1);
    }
    if b[0] & 0xe0 == 0xc0 && b.len() >= 2 && continuation(b[1]) {
        let point = ((b[0] as u32 & 0x1f) << 6) | (b[1] as u32 & 0x3f);
        return if point >= 0x80 { Some(2) } else { None };
    }
    if b[0] & 0xf0 == 0xe0 && b.len() >= 3 && continuation(b[1]) && continuation(b[2]) {
        let point =
            ((b[0] as u32 & 0x0f) << 12) | ((b[1] as u32 & 0x3f) << 6) | (b[2] as u32 & 0x3f);
        return if point >= 0x800 && !(0xd800..=0xdfff).contains(&point) { Some(3) } else { None };
    }
    if b[0] & 0xf8 == 0xf0
        && b.len() >= 4
        && continuation(b[1])
        && continuation(b[2])
        && continuation(b[3])
    {
        let point = ((b[0] as u32 & 0x07) << 18)
            | ((b[1] as u32 & 0x3f) << 12)
            | ((b[2] as u32 & 0x3f) << 6)
            | (b[3] as u32 & 0x3f);
        return if (0x10000..=0x10ffff).contains(&point) { Some(4) } else { None };
    }
    None
}

fn utf8_by_rule(bytes: &[u8]) -> bool {
    let mut rest = bytes;
    while !rest.is_empty() {
        match first_scalar(rest) {
            Some(len) => rest = &rest[len..],
            None => return false,
        }
    }
    true
}

fn shown_by_rule(bytes: &[u8], offset: u64) -> Vec<u8> {
    if utf8_by_rule(bytes) {
        let mut out = bytes.to_vec();
        out.push(b'\n');
        out
    } else {
        render_dump(bytes, offset)
    }
}

#[test]
fn every_short_buffer_is_shown_by_the_plain_rule() {
    assert_eq!(show_bytes(&[], 0), shown_by_rule(&[], 0));
    for a in 0..=255u8 {
        assert_eq!(show_bytes(&[a], 0), shown_by_rule(&[a], 0));
        for b in 0..=255u8 {
            assert_eq!(show_bytes(&[a, b], 0), shown_by_rule(&[a, b], 0));
        }
    }
}

#[test]
fn three_and_four_byte_scalars_are_shown_by_the_plain_rule() {
    let leads = [0xe0u8, 0xe1, 0xec, 0xed, 0xee, 0xef, 0xf0, 0xf1, 0xf3, 0xf4, 0xf5, 0xf7, 0xf8, 0xc2];
    let follows = [0x00u8, 0x7f, 0x80, 0x8f, 0x90, 0x9f, 0xa0, 0xbf, 0xc0, 0xff];
    for lead in leads.iter() {
        for b in follows.iter() {
            for c in follows.iter() {
                let three = [*lead, *b, *c];
                assert_eq!(show_bytes(&three, 0), shown_by_rule(&three, 0));
                for d in follows.iter() {
                    let four = [*lead, *b, *c, *d];
                    assert_eq!(show_bytes(&four, 0), shown_by_rule(&four, 0));
                    let mixed = [b'a', *lead, *b, *c, *d, b'z'];
                    assert_eq!(show_bytes(&mixed, 0), shown_by_rule(&mixed, 0));
                }
            }
        }
    }
}

fn dump_by_rule(bytes: &[u8], offset: u64) -> String {
    let mut out = String::new();
    for (i, chunk) in bytes.chunks(16).enumerate() {
        out.push_str(&format!("{:08x}: ", offset + i as u64 * 16));
        for byte in chunk {
            out.push_str(&format!("{:02x} ", byte));
        }
        for _ in chunk.len()..16 {
            out.push_str("   ");
        }
        out.push('|');
        for byte in chunk {
            out.push(if (32..=126).contains(byte) { *byte as char } else { '.' });
        }
        out.push_str("|\n");
    }
    out
}

#[test]
fn dumps_follow_the_plain_rule() {
    let mut state: u64 = 5;
    for len in 0..70usize {
        let mut bytes = Vec::new();
        for _ in 0..len {
            state = state.wrapping_mul(6364136223846793005).wrapping_add(1442695040888963407);
            bytes.push((state >> 40) as u8);
        }
        for offset in [0u64, 1, 15, 16, 0xfffffff0, 0xffffffff, 0x123456789abc, u64::MAX - 70] {
            assert_eq!(
                String::from_utf8(render_dump(&bytes, offset)).unwrap(),
                dump_by_rule(&bytes, offset)
            );
        }
    }
}
