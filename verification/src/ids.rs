//! Stable repository and firmware identifiers: name-based UUIDs derived
//! from upstream URLs, and their hyphenated text form used for store
//! directory names.

use vstd::prelude::*;

use crate::oracle::{hex_lower, hex_of};

verus! {

/// The UUIDv5 of a name under the URL namespace; a pure function of the
/// name bytes, identical across runs and platforms.
pub uninterp spec fn uuid5_url_of(name: Seq<u8>) -> Seq<u8>;

/// Relies on uuid::Uuid::new_v5 with Uuid::NAMESPACE_URL: a name-based
/// UUID is a SHA-1 digest of namespace and name, 16 bytes, depending on
/// the name alone.
#[verifier::external_body]
fn uuid_v5_url(name: &Vec<u8>) -> (r: Vec<u8>)
    ensures
        r@ == uuid5_url_of(name@),
        r@.len() == 16,
{
    uuid::Uuid::new_v5(&uuid::Uuid::NAMESPACE_URL, name.as_slice()).as_bytes().to_vec()
}

/// The stable identifier of a repository or firmware artifact: the UUIDv5
/// of its URL bytes under the URL namespace.
pub fn uuid_for(url_bytes: &Vec<u8>) -> (r: Vec<u8>)
    ensures
        r@ == uuid5_url_of(url_bytes@),
        r@.len() == 16,
{
    uuid_v5_url(url_bytes)
}

/// Equal URLs give equal identifiers, on every run and every platform:
/// the identifier is a function of the URL bytes and of nothing else.
pub proof fn lemma_uuid_deterministic(a: Seq<u8>, b: Seq<u8>)
    requires
        a == b,
    ensures
        uuid5_url_of(a) == uuid5_url_of(b),
{
}

/// The hyphenated lowercase text form of a 16-byte UUID, as ASCII codes:
/// hex of bytes 0..4, 4..6, 6..8, 8..10 and 10..16, joined by `-`.
pub open spec fn spec_hyphenated(u: Seq<u8>) -> Seq<u8> {
    hex_of(u.subrange(0, 4)) + seq![45u8] + hex_of(u.subrange(4, 6)) + seq![45u8] + hex_of(
        u.subrange(6, 8),
    ) + seq![45u8] + hex_of(u.subrange(8, 10)) + seq![45u8] + hex_of(u.subrange(10, 16))
}

/// Renders a 16-byte UUID in its hyphenated lowercase form.
pub fn uuid_hyphenated_ascii(u: &Vec<u8>) -> (r: Vec<u8>)
    requires
        u@.len() == 16,
    ensures
        r@ == spec_hyphenated(u@),
{
    let mut r: Vec<u8> = Vec::new();
    let mut part: Vec<u8> = Vec::new();
    let mut i: usize = 0;
    while i < 4
        invariant
            u@.len() == 16,
            i <= 4,
            part@ =~= u@.subrange(0, i as int),
        decreases 4 - i,
    {
        part.push(u[i]);
        i = i + 1;
    }
    let mut hex = hex_lower(&part);
    r.append(&mut hex);
    r.push(45);
    let mut part2: Vec<u8> = Vec::new();
    let mut i2: usize = 4;
    while i2 < 6
        invariant
            u@.len() == 16,
            4 <= i2 <= 6,
            part2@ =~= u@.subrange(4, i2 as int),
        decreases 6 - i2,
    {
        part2.push(u[i2]);
        i2 = i2 + 1;
    }
    let mut hex2 = hex_lower(&part2);
    r.append(&mut hex2);
    r.push(45);
    let mut part3: Vec<u8> = Vec::new();
    let mut i3: usize = 6;
    while i3 < 8
        invariant
            u@.len() == 16,
            6 <= i3 <= 8,
            part3@ =~= u@.subrange(6, i3 as int),
        decreases 8 - i3,
    {
        part3.push(u[i3]);
        i3 = i3 + 1;
    }
    let mut hex3 = hex_lower(&part3);
    r.append(&mut hex3);
    r.push(45);
    let mut part4: Vec<u8> = Vec::new();
    let mut i4: usize = 8;
    while i4 < 10
        invariant
            u@.len() == 16,
            8 <= i4 <= 10,
            part4@ =~= u@.subrange(8, i4 as int),
        decreases 10 - i4,
    {
        part4.push(u[i4]);
        i4 = i4 + 1;
    }
    let mut hex4 = hex_lower(&part4);
    r.append(&mut hex4);
    r.push(45);
    let mut part5: Vec<u8> = Vec::new();
    let mut i5: usize = 10;
    while i5 < 16
        invariant
            u@.len() == 16,
            10 <= i5 <= 16,
            part5@ =~= u@.subrange(10, i5 as int),
        decreases 16 - i5,
    {
        part5.push(u[i5]);
        i5 = i5 + 1;
    }
    let mut hex5 = hex_lower(&part5);
    r.append(&mut hex5);
    proof {
        assert(r@ =~= spec_hyphenated(u@));
    }
    r
}

/// The lowercase hex digit character for `n` in `[0, 16)`.
pub open spec fn hex_char(n: u8) -> char {
    if n < 10 {
        ((48 + n) as u8) as char
    } else {
        ((87 + n) as u8) as char
    }
}

/// The hyphenated lowercase text of a 16-byte UUID, as characters.
pub open spec fn spec_hyphenated_chars(u: Seq<u8>) -> Seq<char> {
    Seq::new(
        36,
        |i: int|
            {
                if i == 8 || i == 13 || i == 18 || i == 23 {
                    '-'
                } else {
                    let h = if i < 8 {
                        i
                    } else if i < 13 {
                        i - 1
                    } else if i < 18 {
                        i - 2
                    } else if i < 23 {
                        i - 3
                    } else {
                        i - 4
                    };
                    if h % 2 == 0 {
                        hex_char(u[h / 2] / 16)
                    } else {
                        hex_char(u[h / 2] % 16)
                    }
                }
            },
    )
}

/// One lowercase hex digit as a string slice.
fn hex_char_str(n: u8) -> (r: &'static str)
    requires
        n < 16,
    ensures
        r@ == seq![hex_char(n)],
{
    let r: &'static str = match n {
        0 => "0",
        1 => "1",
        2 => "2",
        3 => "3",
        4 => "4",
        5 => "5",
        6 => "6",
        7 => "7",
        8 => "8",
        9 => "9",
        10 => "a",
        11 => "b",
        12 => "c",
        13 => "d",
        14 => "e",
        15 => "f",
        _ => "0",
    };
    proof {
        reveal_strlit("0");
        reveal_strlit("1");
        reveal_strlit("2");
        reveal_strlit("3");
        reveal_strlit("4");
        reveal_strlit("5");
        reveal_strlit("6");
        reveal_strlit("7");
        reveal_strlit("8");
        reveal_strlit("9");
        reveal_strlit("a");
        reveal_strlit("b");
        reveal_strlit("c");
        reveal_strlit("d");
        reveal_strlit("e");
        reveal_strlit("f");
        assert(r@ =~= seq![hex_char(n)]);
    }
    r
}

/// Renders a 16-byte UUID as its hyphenated lowercase string, the form
/// used for store directory names.
pub fn uuid_hyphenated(u: &Vec<u8>) -> (r: String)
    requires
        u@.len() == 16,
    ensures
        r@ == spec_hyphenated_chars(u@),
{
    let mut r = String::new();
    let mut i: usize = 0;
    while i < 16
        invariant
            u@.len() == 16,
            i <= 16,
            r@ =~= spec_hyphenated_chars(u@).subrange(
                0,
                if i <= 4 {
                    2 * i as int
                } else if i <= 6 {
                    2 * i + 1
                } else if i <= 8 {
                    2 * i + 2
                } else if i <= 10 {
                    2 * i + 3
                } else {
                    2 * i + 4
                },
            ),
        decreases 16 - i,
    {
        if i == 4 || i == 6 || i == 8 || i == 10 {
            r.append("-");
            proof {
                reveal_strlit("-");
            }
        }
        let b = u[i];
        r.append(hex_char_str(b / 16));
        r.append(hex_char_str(b % 16));
        proof {
            assert(r@ =~= spec_hyphenated_chars(u@).subrange(
                0,
                if i + 1 <= 4 {
                    2 * (i + 1)
                } else if i + 1 <= 6 {
                    2 * (i + 1) + 1
                } else if i + 1 <= 8 {
                    2 * (i + 1) + 2
                } else if i + 1 <= 10 {
                    2 * (i + 1) + 3
                } else {
                    2 * (i + 1) + 4
                },
            ));
        }
        i = i + 1;
    }
    proof {
        assert(spec_hyphenated_chars(u@).subrange(0, 36) =~= spec_hyphenated_chars(u@));
    }
    r
}

} // verus!
