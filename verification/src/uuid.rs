//! Version-4 UUIDs: formatting one from random bytes, and canonicalizing a
//! caller-supplied UUID string into its urn form.
use vstd::prelude::*;

use rand::{Rng, SeedableRng};

use crate::rdf::GenericError;

verus! {

/// The lowercase hexadecimal digit for a value below sixteen.
pub open spec fn hex_digit(d: int) -> char {
    if d == 0 {
        '0'
    } else if d == 1 {
        '1'
    } else if d == 2 {
        '2'
    } else if d == 3 {
        '3'
    } else if d == 4 {
        '4'
    } else if d == 5 {
        '5'
    } else if d == 6 {
        '6'
    } else if d == 7 {
        '7'
    } else if d == 8 {
        '8'
    } else if d == 9 {
        '9'
    } else if d == 10 {
        'a'
    } else if d == 11 {
        'b'
    } else if d == 12 {
        'c'
    } else if d == 13 {
        'd'
    } else if d == 14 {
        'e'
    } else {
        'f'
    }
}

/// The two lowercase hexadecimal digits of one byte.
pub open spec fn byte_hex(b: u8) -> Seq<char> {
    seq![hex_digit(b as int / 16), hex_digit(b as int % 16)]
}

/// The lowercase hexadecimal rendering of a byte string.
pub open spec fn hex_of(bytes: Seq<u8>) -> Seq<char>
    decreases bytes.len(),
{
    if bytes.len() == 0 {
        Seq::empty()
    } else {
        byte_hex(bytes[0]) + hex_of(bytes.drop_first())
    }
}

/// Sixteen random bytes with the version-4 and variant bits applied: the
/// high nibble of byte six becomes 4, the top two bits of byte eight
/// become the variant 10.
pub open spec fn uuid_field_bytes(b: Seq<u8>) -> Seq<u8> {
    b.update(6, ((b[6] & 0x0f) | 0x40) as u8).update(8, ((b[8] & 0x3f) | 0x80) as u8)
}

/// The hyphenated rendering of sixteen UUID bytes.
pub open spec fn uuid_hyphenated(b: Seq<u8>) -> Seq<char> {
    hex_of(b.subrange(0, 4)) + "-"@ + hex_of(b.subrange(4, 6)) + "-"@ + hex_of(b.subrange(6, 8))
        + "-"@ + hex_of(b.subrange(8, 10)) + "-"@ + hex_of(b.subrange(10, 16))
}

/// Relies on rand_chacha's ChaCha20Rng: the stream is a pure function of
/// the 32-byte seed, so the first sixteen bytes drawn from it are named
/// `chacha_bytes_of` of that seed.
pub uninterp spec fn chacha_bytes_of(seed: Seq<u8>) -> Seq<u8>;

/// Relies on rand_chacha's ChaCha20Rng (seeded, then asked for sixteen
/// bytes) and rand's Rng::gen for byte arrays: deterministic in the seed.
#[verifier::external_body]
fn chacha_first_bytes(seed: &[u8; 32]) -> (r: Vec<u8>)
    ensures
        r@ == chacha_bytes_of(seed@),
        r@.len() == 16,
{
    let mut rng = rand_chacha::ChaCha20Rng::from_seed(*seed);
    let bytes: [u8; 16] = rng.gen();
    bytes.to_vec()
}

/// The one-character string for a lowercase hexadecimal digit.
fn hex_digit_str(d: u8) -> (r: &'static str)
    requires
        d < 16,
    ensures
        r@ == seq![hex_digit(d as int)],
{
    proof {
        reveal_strlit("0");
        reveal_strlit("1");
        reveal_strlit("2");
        reveal_strlit("3");
        reveal_strlit("4");
        reveal_strlit("5");
        reveal_strlit("6");
        reveal_strlit("7");
        reveal_strlit("8");
        reveal_strlit("9");
        reveal_strlit("a");
        reveal_strlit("b");
        reveal_strlit("c");
        reveal_strlit("d");
        reveal_strlit("e");
        reveal_strlit("f");
    }
    match d {
        0 => "0",
        1 => "1",
        2 => "2",
        3 => "3",
        4 => "4",
        5 => "5",
        6 => "6",
        7 => "7",
        8 => "8",
        9 => "9",
        10 => "a",
        11 => "b",
        12 => "c",
        13 => "d",
        14 => "e",
        _ => "f",
    }
}

/// Appends the lowercase hexadecimal rendering of a byte range to a
/// string.
fn append_hex_range(out: &mut String, bytes: &Vec<u8>, from: usize, to: usize)
    requires
        from <= to <= bytes@.len(),
    ensures
        final(out)@ == old(out)@ + hex_of(bytes@.subrange(from as int, to as int)),
{
    let mut i: usize = from;
    while i < to
        invariant
            from <= i <= to <= bytes@.len(),
            out@ == old(out)@ + hex_of(bytes@.subrange(from as int, i as int)),
        decreases to - i,
    {
        let b = bytes[i];
        out.append(hex_digit_str(b / 16));
        out.append(hex_digit_str(b % 16));
        proof {
            lemma_hex_of_snoc(bytes@, from as int, i as int);
        }
        i = i + 1;
    }
}

/// Extending a byte range by one byte extends its rendering by that
/// byte's two digits.
proof fn lemma_hex_of_snoc(bytes: Seq<u8>, from: int, i: int)
    requires
        0 <= from <= i < bytes.len(),
    ensures
        hex_of(bytes.subrange(from, i + 1)) =~= hex_of(bytes.subrange(from, i)) + byte_hex(
            bytes[i],
        ),
    decreases i - from,
{
    let s = bytes.subrange(from, i + 1);
    if from == i {
        assert(s.len() == 1);
        assert(s[0] == bytes[i]);
        assert(s.drop_first() =~= Seq::<u8>::empty());
        assert(hex_of(Seq::<u8>::empty()) =~= Seq::<char>::empty());
        assert(hex_of(s) == byte_hex(s[0]) + hex_of(s.drop_first()));
        assert(hex_of(s) =~= byte_hex(bytes[i]));
        assert(bytes.subrange(from, i) =~= Seq::<u8>::empty());
        assert(hex_of(bytes.subrange(from, i)) =~= Seq::<char>::empty());
    } else {
        assert(s[0] == bytes[from]);
        assert(s.drop_first() =~= bytes.subrange(from + 1, i + 1));
        lemma_hex_of_snoc(bytes, from + 1, i);
        assert(bytes.subrange(from, i).drop_first() =~= bytes.subrange(from + 1, i));
        assert(bytes.subrange(from, i)[0] == bytes[from]);
        assert(hex_of(bytes.subrange(from, i)) == byte_hex(bytes[from]) + hex_of(
            bytes.subrange(from + 1, i),
        ));
        assert(hex_of(s) =~= byte_hex(bytes[from]) + hex_of(bytes.subrange(from + 1, i + 1)));
        assert(hex_of(s) =~= hex_of(bytes.subrange(from, i)) + byte_hex(bytes[i]));
    }
}

/// Generates a fresh version-4 UUID in hyphenated form, from randomness
/// drawn deterministically out of the given seed.
pub fn generate_uuid(seed: &[u8; 32]) -> (r: String)
    ensures
        r@ == uuid_hyphenated(uuid_field_bytes(chacha_bytes_of(seed@))),
{
    let raw = chacha_first_bytes(seed);
    let mut bytes = raw;
    let b6 = bytes[6];
    bytes.set(6, (b6 & 0x0f) | 0x40);
    let b8 = bytes[8];
    bytes.set(8, (b8 & 0x3f) | 0x80);
    proof {
        assert(bytes@ =~= uuid_field_bytes(chacha_bytes_of(seed@)));
    }
    let mut out = String::new();
    append_hex_range(&mut out, &bytes, 0, 4);
    out.append("-");
    append_hex_range(&mut out, &bytes, 4, 6);
    out.append("-");
    append_hex_range(&mut out, &bytes, 6, 8);
    out.append("-");
    append_hex_range(&mut out, &bytes, 8, 10);
    out.append("-");
    append_hex_range(&mut out, &bytes, 10, 16);
    proof {
        assert(out@ =~= uuid_hyphenated(bytes@));
    }
    out
}

/// Whether a character is a hexadecimal digit.
pub open spec fn is_hex_char(c: char) -> bool {
    ('0' <= c && c <= '9') || ('a' <= c && c <= 'f') || ('A' <= c && c <= 'F')
}

/// The numeric value of a hexadecimal digit character.
pub open spec fn hex_char_val(c: char) -> int {
    if '0' <= c && c <= '9' {
        c as int - '0' as int
    } else if 'a' <= c && c <= 'f' {
        10 + c as int - 'a' as int
    } else {
        10 + c as int - 'A' as int
    }
}

/// The canonical (lowercase) form of a hexadecimal digit character.
pub open spec fn lower_hex_char(c: char) -> char {
    hex_digit(hex_char_val(c))
}

/// Whether a string is the simple (32 hexadecimal digits) form of a UUID.
pub open spec fn is_simple_uuid(s: Seq<char>) -> bool {
    s.len() == 32 && forall|i: int| 0 <= i < 32 ==> is_hex_char(#[trigger] s[i])
}

/// Whether a position carries a hyphen in the hyphenated UUID form.
pub open spec fn is_hyphen_position(i: int) -> bool {
    i == 8 || i == 13 || i == 18 || i == 23
}

/// Whether a string is the hyphenated (8-4-4-4-12) form of a UUID.
pub open spec fn is_hyphenated_uuid(s: Seq<char>) -> bool {
    &&& s.len() == 36
    &&& forall|i: int|
        0 <= i < 36 ==> (if is_hyphen_position(i) {
            (#[trigger] s[i]) == '-'
        } else {
            is_hex_char(s[i])
        })
}

/// The canonical hyphenated form of a simple UUID string.
pub open spec fn canon_of_simple(s: Seq<char>) -> Seq<char> {
    Seq::new(
        36,
        |i: int|
            if is_hyphen_position(i) {
                '-'
            } else if i < 8 {
                lower_hex_char(s[i])
            } else if i < 13 {
                lower_hex_char(s[i - 1])
            } else if i < 18 {
                lower_hex_char(s[i - 2])
            } else if i < 23 {
                lower_hex_char(s[i - 3])
            } else {
                lower_hex_char(s[i - 4])
            },
    )
}

/// The canonical form of a hyphenated UUID string: every digit lowered.
pub open spec fn canon_of_hyphenated(s: Seq<char>) -> Seq<char> {
    Seq::new(
        36,
        |i: int|
            if is_hyphen_position(i) {
                '-'
            } else {
                lower_hex_char(s[i])
            },
    )
}

/// The urn scheme prefix a UUID is embedded under.
pub open spec fn urn_prefix() -> Seq<char> {
    "urn:uuid:"@
}

/// The one-character string for the canonical lowercase form of a
/// hexadecimal digit character.
fn lower_hex_str(c: char) -> (r: &'static str)
    requires
        is_hex_char(c),
    ensures
        r@ == seq![lower_hex_char(c)],
{
    let v: u32 = if '0' <= c && c <= '9' {
        c as u32 - '0' as u32
    } else if 'a' <= c && c <= 'f' {
        10 + c as u32 - 'a' as u32
    } else {
        10 + c as u32 - 'A' as u32
    };
    hex_digit_str(v as u8)
}

/// The input position the canonical hyphenated form reads at output
/// position `k`, for a simple (hyphen-free) input.
pub open spec fn simple_src(k: int) -> int {
    if k < 8 {
        k
    } else if k < 13 {
        k - 1
    } else if k < 18 {
        k - 2
    } else if k < 23 {
        k - 3
    } else {
        k - 4
    }
}

/// Whether a string is the urn form of a UUID: the `urn:uuid:` scheme
/// prefix followed by the hyphenated form.
pub open spec fn is_urn_uuid(s: Seq<char>) -> bool {
    s.len() == 45 && s.subrange(0, 9) == urn_prefix() && is_hyphenated_uuid(s.skip(9))
}

/// Whether a string is the braced form of a UUID: the hyphenated form in
/// curly braces.
pub open spec fn is_braced_uuid(s: Seq<char>) -> bool {
    s.len() == 38 && s[0] == '{' && s[37] == '}' && is_hyphenated_uuid(s.subrange(1, 37))
}

/// Whether a string spells a UUID in any accepted form: simple,
/// hyphenated, urn, or braced.
pub open spec fn is_uuid_text(s: Seq<char>) -> bool {
    is_simple_uuid(s) || is_hyphenated_uuid(s) || is_urn_uuid(s) || is_braced_uuid(s)
}

/// The canonical hyphenated lowercase form of a UUID string in any
/// accepted form.
pub open spec fn uuid_canon_of(s: Seq<char>) -> Seq<char> {
    if s.len() == 32 {
        canon_of_simple(s)
    } else if s.len() == 36 {
        canon_of_hyphenated(s)
    } else if s.len() == 38 {
        canon_of_hyphenated(s.subrange(1, 37))
    } else {
        canon_of_hyphenated(s.skip(9))
    }
}

/// Canonicalizes a caller-supplied UUID string into its urn form
/// `urn:uuid:xxxxxxxx-xxxx-xxxx-xxxx-xxxxxxxxxxxx`, in lowercase. Accepts
/// the simple (32 digits), hyphenated (8-4-4-4-12), urn-prefixed and
/// braced forms, and rejects anything else.
pub fn uuid_urn_of(uid: &str) -> (r: Result<String, GenericError>)
    ensures
        match r {
            Ok(u) => is_uuid_text(uid@) && u@ == urn_prefix() + uuid_canon_of(uid@),
            Err(_) => !is_uuid_text(uid@),
        },
{
    let n = uid.unicode_len();
    // where the 32 or 36 characters of the identifier itself start
    let mut off: usize = 0;
    let mut simple: bool = false;
    if n == 32 {
        simple = true;
    } else if n == 36 {
    } else if n == 38 {
        if uid.get_char(0) != '{' || uid.get_char(37) != '}' {
            return Err(String::from_str("invalid UUID braces"));
        }
        off = 1;
    } else if n == 45 {
        proof {
            reveal_strlit("urn:uuid:");
        }
        if uid.get_char(0) != 'u' || uid.get_char(1) != 'r' || uid.get_char(2) != 'n'
            || uid.get_char(3) != ':' || uid.get_char(4) != 'u' || uid.get_char(5) != 'u'
            || uid.get_char(6) != 'i' || uid.get_char(7) != 'd' || uid.get_char(8) != ':' {
            proof {
                if uid@.subrange(0, 9) == urn_prefix() {
                    assert(uid@[0] == urn_prefix()[0]);
                    assert(uid@[1] == urn_prefix()[1]);
                    assert(uid@[2] == urn_prefix()[2]);
                    assert(uid@[3] == urn_prefix()[3]);
                    assert(uid@[4] == urn_prefix()[4]);
                    assert(uid@[5] == urn_prefix()[5]);
                    assert(uid@[6] == urn_prefix()[6]);
                    assert(uid@[7] == urn_prefix()[7]);
                    assert(uid@[8] == urn_prefix()[8]);
                }
            }
            return Err(String::from_str("invalid UUID scheme prefix"));
        }
        proof {
            assert(uid@.subrange(0, 9) =~= urn_prefix());
        }
        off = 9;
    } else {
        return Err(String::from_str("invalid UUID length"));
    }
    let ghost inner = if simple {
        uid@
    } else {
        uid@.subrange(off as int, off + 36)
    };
    let ghost canon = if simple {
        canon_of_simple(uid@)
    } else {
        canon_of_hyphenated(inner)
    };
    let mut out = String::from_str("urn:uuid:");
    let mut k: usize = 0;
    while k < 36
        invariant
            k <= 36,
            n == uid@.len(),
            simple ==> n == 32 && off == 0,
            !simple ==> ((n == 36 && off == 0) || (n == 38 && off == 1) || (n == 45 && off
                == 9)),
            inner == (if simple {
                uid@
            } else {
                uid@.subrange(off as int, off + 36)
            }),
            canon == (if simple {
                canon_of_simple(uid@)
            } else {
                canon_of_hyphenated(inner)
            }),
            canon.len() == 36,
            out@ == urn_prefix() + canon.take(k as int),
            !simple ==> forall|j: int|
                0 <= j < k ==> (if is_hyphen_position(j) {
                    (#[trigger] inner[j]) == '-'
                } else {
                    is_hex_char(inner[j])
                }),
            simple ==> forall|j: int|
                0 <= j < k && !is_hyphen_position(j) ==> is_hex_char(
                    #[trigger] uid@[simple_src(j)],
                ),
        decreases 36 - k,
    {
        let hyphen_here = k == 8 || k == 13 || k == 18 || k == 23;
        let piece: &'static str;
        if !simple {
            let u = uid.get_char(off + k);
            proof {
                assert(inner[k as int] == uid@[off + k]);
            }
            if hyphen_here {
                if u != '-' {
                    proof {
                        assert(is_hyphen_position(k as int));
                        if n == 36 {
                            if is_hyphenated_uuid(uid@) {
                                assert(uid@[k as int] == '-');
                            }
                        } else if n == 38 {
                            if is_braced_uuid(uid@) {
                                assert(uid@.subrange(1, 37)[k as int] == '-');
                                assert(uid@.subrange(1, 37)[k as int] == uid@[1 + k]);
                            }
                        } else {
                            if is_urn_uuid(uid@) {
                                assert(uid@.skip(9)[k as int] == '-');
                                assert(uid@.skip(9)[k as int] == uid@[9 + k]);
                            }
                        }
                    }
                    return Err(String::from_str("invalid UUID separator"));
                }
                proof {
                    reveal_strlit("-");
                }
                piece = "-";
            } else {
                if !char_is_hex(u) {
                    proof {
                        assert(!is_hyphen_position(k as int));
                        if n == 36 {
                            if is_hyphenated_uuid(uid@) {
                                assert(is_hex_char(uid@[k as int]));
                            }
                        } else if n == 38 {
                            if is_braced_uuid(uid@) {
                                assert(is_hex_char(uid@.subrange(1, 37)[k as int]));
                                assert(uid@.subrange(1, 37)[k as int] == uid@[1 + k]);
                            }
                        } else {
                            if is_urn_uuid(uid@) {
                                assert(is_hex_char(uid@.skip(9)[k as int]));
                                assert(uid@.skip(9)[k as int] == uid@[9 + k]);
                            }
                        }
                    }
                    return Err(String::from_str("invalid UUID character"));
                }
                piece = lower_hex_str(u);
            }
        } else {
            if hyphen_here {
                proof {
                    reveal_strlit("-");
                }
                piece = "-";
            } else {
                let src = if k < 8 {
                    k
                } else if k < 13 {
                    k - 1
                } else if k < 18 {
                    k - 2
                } else if k < 23 {
                    k - 3
                } else {
                    k - 4
                };
                let u = uid.get_char(src);
                if !char_is_hex(u) {
                    return Err(String::from_str("invalid UUID character"));
                }
                piece = lower_hex_str(u);
            }
        }
        proof {
            assert(piece@ == seq![canon[k as int]]);
        }
        out.append(piece);
        proof {
            assert(out@ =~= urn_prefix() + canon.take(k + 1 as int));
        }
        k = k + 1;
    }
    proof {
        assert(canon.take(36) =~= canon);
        if simple {
            assert forall|p: int| 0 <= p < 32 implies is_hex_char(#[trigger] uid@[p]) by {
                let j: int = if p < 8 {
                    p
                } else if p < 12 {
                    p + 1
                } else if p < 16 {
                    p + 2
                } else if p < 20 {
                    p + 3
                } else {
                    p + 4
                };
                assert(!is_hyphen_position(j));
                assert(simple_src(j) == p);
                assert(is_hex_char(uid@[simple_src(j)]));
            }
            assert(is_simple_uuid(uid@));
            assert(uuid_canon_of(uid@) == canon);
        } else {
            assert(is_hyphenated_uuid(inner));
            if n == 36 {
                assert(inner =~= uid@);
                assert(is_hyphenated_uuid(uid@));
                assert(uuid_canon_of(uid@) == canon);
            } else if n == 38 {
                assert(inner =~= uid@.subrange(1, 37));
                assert(is_braced_uuid(uid@));
                assert(uuid_canon_of(uid@) == canon_of_hyphenated(uid@.subrange(1, 37)));
                assert(canon_of_hyphenated(inner) == canon_of_hyphenated(uid@.subrange(1, 37)));
            } else {
                assert(inner =~= uid@.skip(9));
                assert(is_urn_uuid(uid@));
                assert(uuid_canon_of(uid@) == canon_of_hyphenated(uid@.skip(9)));
            }
        }
    }
    Ok(out)
}

/// Whether a character is a hexadecimal digit.
fn char_is_hex(c: char) -> (r: bool)
    ensures
        r == is_hex_char(c),
{
    ('0' <= c && c <= '9') || ('a' <= c && c <= 'f') || ('A' <= c && c <= 'F')
}

} // verus!
