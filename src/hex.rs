use vstd::prelude::*;

verus! {

/// The value of a hexadecimal digit, or -1 for any other character.
pub open spec fn hex_value(c: char) -> int {
    if '0' <= c && c <= '9' {
        c as int - '0' as int
    } else if 'a' <= c && c <= 'f' {
        c as int - 'a' as int + 10
    } else if 'A' <= c && c <= 'F' {
        c as int - 'A' as int + 10
    } else {
        -1
    }
}

/// The value of a two-character hex number, or -1 if the pair is not one:
/// two hex digits, or a plus sign and one hex digit.
pub open spec fn pair_value(a: char, b: char) -> int {
    if hex_value(a) >= 0 && hex_value(b) >= 0 {
        16 * hex_value(a) + hex_value(b)
    } else if a == '+' && hex_value(b) >= 0 {
        hex_value(b)
    } else {
        -1
    }
}

/// Whether every complete pair of characters is a hex number.
pub open spec fn valid_hex_pairs(s: Seq<char>) -> bool {
    forall|i: int| 0 <= i < s.len() / 2 ==> #[trigger] pair_byte(s, i) >= 0
}

/// The byte written by the pair of characters that starts at `2 * i`.
pub open spec fn pair_byte(s: Seq<char>, i: int) -> int {
    pair_value(s[2 * i], s[2 * i + 1])
}

fn digit(c: char) -> (r: Option<u8>)
    ensures
        match r {
            Some(v) => hex_value(c) == v as int && v < 16,
            None => hex_value(c) == -1,
        },
{
    if '0' <= c && c <= '9' {
        Some((c as u32 - '0' as u32) as u8)
    } else if 'a' <= c && c <= 'f' {
        Some((c as u32 - 'a' as u32 + 10) as u8)
    } else if 'A' <= c && c <= 'F' {
        Some((c as u32 - 'A' as u32 + 10) as u8)
    } else {
        None
    }
}

/// Decodes a hex string two characters at a time into bytes, each pair read
/// as a hex number (a leading plus sign allowed). A last character without a
/// partner is ignored; a pair that is not a hex number makes the whole string
/// invalid.
pub fn parse_bytecode(bc: &str) -> (r: Option<Vec<u8>>)
    ensures
        r.is_some() <==> valid_hex_pairs(bc@),
        r.is_some() ==> r.unwrap()@.len() == bc@.len() / 2 && forall|i: int|
            0 <= i < bc@.len() / 2 ==> #[trigger] r.unwrap()@[i] as int == pair_byte(bc@, i),
{
    let n = bc.unicode_len();
    let mut ret: Vec<u8> = Vec::new();
    let mut i: usize = 0;
    while i + 1 < n
        invariant
            n == bc@.len(),
            i % 2 == 0,
            i <= n,
            ret@.len() == i / 2,
            forall|k: int| 0 <= k < i / 2 ==> #[trigger] pair_byte(bc@, k) >= 0,
            forall|k: int| 0 <= k < i / 2 ==> #[trigger] ret@[k] as int == pair_byte(bc@, k),
        decreases n - i,
    {
        let a = bc.get_char(i);
        let hi = digit(a);
        let lo = digit(bc.get_char(i + 1));
        assert(pair_byte(bc@, (i / 2) as int) == pair_value(bc@[i as int], bc@[i + 1]));
        match (hi, lo) {
            (Some(h), Some(l)) => {
                ret.push(h * 16 + l);
            },
            (None, Some(l)) => {
                if a == '+' {
                    ret.push(l);
                } else {
                    assert(!valid_hex_pairs(bc@)) by {
                        assert(pair_byte(bc@, (i / 2) as int) < 0);
                    }
                    return None;
                }
            },
            _ => {
                assert(!valid_hex_pairs(bc@)) by {
                    assert(pair_byte(bc@, (i / 2) as int) < 0);
                }
                return None;
            },
        }
        i = i + 2;
    }
    assert(i == 2 * (n / 2));
    Some(ret)
}

/// The selector written by the first four pairs of a hex string, big endian,
/// when the string has them and each is a hex number.
pub open spec fn selector_text(s: Seq<char>) -> Option<int> {
    if s.len() >= 8 && forall|i: int| 0 <= i < 4 ==> #[trigger] pair_byte(s, i) >= 0 {
        Some(
            pair_byte(s, 0) * 0x100_0000 + pair_byte(s, 1) * 0x1_0000 + pair_byte(s, 2) * 0x100
                + pair_byte(s, 3),
        )
    } else {
        None
    }
}

fn pair_at(s: &str, j: usize) -> (r: Option<u8>)
    requires
        j + 1 < s@.len(),
    ensures
        match r {
            Some(v) => v as int == pair_value(s@[j as int], s@[j + 1]),
            None => pair_value(s@[j as int], s@[j + 1]) < 0,
        },
{
    let n = s.unicode_len();
    assert(j < n);
    let a = s.get_char(j);
    let hi = digit(a);
    let lo = digit(s.get_char(j + 1));
    match (hi, lo) {
        (Some(h), Some(l)) => Some(h * 16 + l),
        (None, Some(l)) => {
            if a == '+' {
                Some(l)
            } else {
                None
            }
        },
        _ => None,
    }
}

/// Reads the selector at the head of hex calldata.
pub fn read_selector(s: &str) -> (r: Option<u32>)
    ensures
        match selector_text(s@) {
            Some(v) => r matches Some(x) && x as int == v,
            None => r is None,
        },
{
    if s.unicode_len() < 8 {
        return None;
    }
    let b0 = pair_at(s, 0);
    let b1 = pair_at(s, 2);
    let b2 = pair_at(s, 4);
    let b3 = pair_at(s, 6);
    assert(pair_byte(s@, 0) == pair_value(s@[0], s@[1]));
    assert(pair_byte(s@, 1) == pair_value(s@[2], s@[3]));
    assert(pair_byte(s@, 2) == pair_value(s@[4], s@[5]));
    assert(pair_byte(s@, 3) == pair_value(s@[6], s@[7]));
    match (b0, b1, b2, b3) {
        (Some(x0), Some(x1), Some(x2), Some(x3)) => {
            assert(forall|i: int| 0 <= i < 4 ==> #[trigger] pair_byte(s@, i) >= 0) by {
                assert forall|i: int| 0 <= i < 4 implies #[trigger] pair_byte(s@, i) >= 0 by {
                    if i == 0 {} else if i == 1 {} else if i == 2 {} else {}
                }
            }
            Some(x0 as u32 * 0x100_0000 + x1 as u32 * 0x1_0000 + x2 as u32 * 0x100 + x3 as u32)
        },
        _ => {
            assert(selector_text(s@) is None) by {
                if b0 is None {
                    assert(pair_byte(s@, 0) < 0);
                } else if b1 is None {
                    assert(pair_byte(s@, 1) < 0);
                } else if b2 is None {
                    assert(pair_byte(s@, 2) < 0);
                } else {
                    assert(pair_byte(s@, 3) < 0);
                }
            }
            None
        },
    }
}

} // verus!
