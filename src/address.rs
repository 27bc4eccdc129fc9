use vstd::prelude::*;
use vstd::string::StringExecFns;

verus! {

/// An IPv4 address, held as its 32-bit value (first octet in the high byte).
#[derive(Clone, Copy, Debug, PartialEq, Eq, Structural)]
pub struct Address {
    pub bits: u32,
}

/// The one error of this library: a string that is not a dotted-quad IPv4 address.
#[derive(Clone, Copy, Debug, PartialEq, Eq, Structural)]
pub struct AddressParseError;

/// The decimal digit that a character stands for, if it is one.
pub open spec fn digit_of(c: char) -> Option<int> {
    if c == '0' {
        Some(0)
    } else if c == '1' {
        Some(1)
    } else if c == '2' {
        Some(2)
    } else if c == '3' {
        Some(3)
    } else if c == '4' {
        Some(4)
    } else if c == '5' {
        Some(5)
    } else if c == '6' {
        Some(6)
    } else if c == '7' {
        Some(7)
    } else if c == '8' {
        Some(8)
    } else if c == '9' {
        Some(9)
    } else {
        None
    }
}

pub open spec fn is_digit(c: char) -> bool {
    digit_of(c) is Some
}

/// The character of a decimal digit `0 <= d <= 9`.
pub open spec fn digit_char(d: int) -> char {
    if d == 0 {
        '0'
    } else if d == 1 {
        '1'
    } else if d == 2 {
        '2'
    } else if d == 3 {
        '3'
    } else if d == 4 {
        '4'
    } else if d == 5 {
        '5'
    } else if d == 6 {
        '6'
    } else if d == 7 {
        '7'
    } else if d == 8 {
        '8'
    } else {
        '9'
    }
}

/// The shortest decimal text of an octet `0 <= n <= 255`: no leading zeros.
pub open spec fn decimal(n: int) -> Seq<char> {
    if n < 10 {
        seq![digit_char(n)]
    } else if n < 100 {
        seq![digit_char(n / 10), digit_char(n % 10)]
    } else {
        seq![digit_char(n / 100), digit_char((n / 10) % 10), digit_char(n % 10)]
    }
}

/// Octet `k` (0 is the most significant) of an address value.
pub open spec fn octet(x: u32, k: int) -> int {
    if k == 0 {
        ((x >> 24u32) & 0xffu32) as int
    } else if k == 1 {
        ((x >> 16u32) & 0xffu32) as int
    } else if k == 2 {
        ((x >> 8u32) & 0xffu32) as int
    } else {
        (x & 0xffu32) as int
    }
}

/// The dotted-quad text of an address value, `a.b.c.d`.
pub open spec fn dotted(x: u32) -> Seq<char> {
    decimal(octet(x, 0)) + seq!['.'] + decimal(octet(x, 1)) + seq!['.'] + decimal(octet(x, 2))
        + seq!['.'] + decimal(octet(x, 3))
}

/// `text` holds the decimal text of `n` at `start`, and no digit follows it.
pub open spec fn decimal_at(text: Seq<char>, start: int, n: int) -> bool {
    &&& 0 <= n <= 255
    &&& 0 <= start
    &&& start + decimal(n).len() <= text.len()
    &&& text.subrange(start, start + decimal(n).len()) == decimal(n)
    &&& (start + decimal(n).len() == text.len() || !is_digit(text[start + decimal(n).len()]))
}

proof fn lemma_digit_round_trip(d: int)
    requires
        0 <= d <= 9,
    ensures
        digit_of(digit_char(d)) == Some(d),
{
}

proof fn lemma_decimal_digits(n: int)
    requires
        0 <= n <= 255,
    ensures
        1 <= decimal(n).len() <= 3,
        decimal(n).len() == 1 <==> n < 10,
        decimal(n).len() == 2 <==> 10 <= n < 100,
        forall|i: int| 0 <= i < decimal(n).len() ==> #[trigger] is_digit(decimal(n)[i]),
        decimal(n).len() > 1 ==> decimal(n)[0] != '0',
{
    if n < 10 {
        lemma_digit_round_trip(n);
    } else if n < 100 {
        lemma_digit_round_trip(n / 10);
        lemma_digit_round_trip(n % 10);
    } else {
        lemma_digit_round_trip(n / 100);
        lemma_digit_round_trip((n / 10) % 10);
        lemma_digit_round_trip(n % 10);
    }
}

/// Two octets whose texts start at one place and end before a non-digit are the same.
proof fn lemma_decimal_at_unique(text: Seq<char>, start: int, v: int, w: int)
    requires
        decimal_at(text, start, v),
        decimal_at(text, start, w),
    ensures
        v == w,
{
    lemma_decimal_digits(v);
    lemma_decimal_digits(w);
    let lv = decimal(v).len() as int;
    let lw = decimal(w).len() as int;
    if lv < lw {
        assert(text.subrange(start, start + lw)[lv] == text[start + lv]);
        assert(is_digit(decimal(w)[lv]));
    } else if lw < lv {
        assert(text.subrange(start, start + lv)[lw] == text[start + lw]);
        assert(is_digit(decimal(v)[lw]));
    }
    assert(decimal(v) == decimal(w));
    if v < 10 {
        lemma_digit_round_trip(v);
        lemma_digit_round_trip(w);
        assert(decimal(v)[0] == decimal(w)[0]);
    } else if v < 100 {
        lemma_digit_round_trip(v / 10);
        lemma_digit_round_trip(v % 10);
        lemma_digit_round_trip(w / 10);
        lemma_digit_round_trip(w % 10);
        assert(decimal(v)[0] == decimal(w)[0]);
        assert(decimal(v)[1] == decimal(w)[1]);
    } else {
        lemma_digit_round_trip(v / 100);
        lemma_digit_round_trip((v / 10) % 10);
        lemma_digit_round_trip(v % 10);
        lemma_digit_round_trip(w / 100);
        lemma_digit_round_trip((w / 10) % 10);
        lemma_digit_round_trip(w % 10);
        assert(decimal(v)[0] == decimal(w)[0]);
        assert(decimal(v)[1] == decimal(w)[1]);
        assert(decimal(v)[2] == decimal(w)[2]);
    }
}

proof fn lemma_octet_range(x: u32)
    ensures
        (x >> 24u32) & 0xffu32 <= 255,
        (x >> 16u32) & 0xffu32 <= 255,
        (x >> 8u32) & 0xffu32 <= 255,
        x & 0xffu32 <= 255,
{
    assert((x >> 24u32) & 0xffu32 <= 255) by (bit_vector);
    assert((x >> 16u32) & 0xffu32 <= 255) by (bit_vector);
    assert((x >> 8u32) & 0xffu32 <= 255) by (bit_vector);
    assert(x & 0xffu32 <= 255) by (bit_vector);
}

/// Where the text of each octet of `dotted(x)` stands.
proof fn lemma_dotted_fields(x: u32)
    ensures
        ({
            let t = dotted(x);
            let p1: int = decimal(octet(x, 0)).len() as int + 1;
            let p2: int = p1 + decimal(octet(x, 1)).len() + 1;
            let p3: int = p2 + decimal(octet(x, 2)).len() + 1;
            &&& decimal_at(t, 0, octet(x, 0))
            &&& t[p1 - 1] == '.'
            &&& decimal_at(t, p1, octet(x, 1))
            &&& t[p2 - 1] == '.'
            &&& decimal_at(t, p2, octet(x, 2))
            &&& t[p3 - 1] == '.'
            &&& decimal_at(t, p3, octet(x, 3))
            &&& p3 + decimal(octet(x, 3)).len() == t.len()
        }),
{
    lemma_octet_range(x);
    let d0 = decimal(octet(x, 0));
    let d1 = decimal(octet(x, 1));
    let d2 = decimal(octet(x, 2));
    let d3 = decimal(octet(x, 3));
    lemma_decimal_digits(octet(x, 0));
    lemma_decimal_digits(octet(x, 1));
    lemma_decimal_digits(octet(x, 2));
    lemma_decimal_digits(octet(x, 3));
    let t = dotted(x);
    let p1: int = d0.len() as int + 1;
    let p2: int = p1 + d1.len() + 1;
    let p3: int = p2 + d2.len() + 1;
    assert(t.subrange(0, d0.len() as int) =~= d0);
    assert(t.subrange(p1, p1 + d1.len() as int) =~= d1);
    assert(t.subrange(p2, p2 + d2.len() as int) =~= d2);
    assert(t.subrange(p3, p3 + d3.len() as int) =~= d3);
}

/// The digit that `c` stands for.
fn char_digit(c: char) -> (r: Option<u32>)
    ensures
        r is Some == is_digit(c),
        r matches Some(d) ==> d <= 9 && digit_of(c) == Some(d as int) && digit_char(d as int) == c,
{
    match c {
        '0' => Some(0),
        '1' => Some(1),
        '2' => Some(2),
        '3' => Some(3),
        '4' => Some(4),
        '5' => Some(5),
        '6' => Some(6),
        '7' => Some(7),
        '8' => Some(8),
        '9' => Some(9),
        _ => None,
    }
}

/// Reads the decimal text of one octet at `start`, with the index just past it.
fn read_octet(s: &str, start: usize) -> (r: Option<(u32, usize)>)
    requires
        start <= s@.len(),
    ensures
        match r {
            Some((v, j)) => decimal_at(s@, start as int, v as int) && j == start + decimal(
                v as int,
            ).len(),
            None => forall|n: int| !decimal_at(s@, start as int, n),
        },
{
    let t = Ghost(s@);
    let len = s.unicode_len();
    if start == len {
        proof {
            assert forall|n: int| !decimal_at(t@, start as int, n) by {
                if decimal_at(t@, start as int, n) {
                    lemma_decimal_digits(n);
                }
            }
        }
        return None;
    }
    let c0 = s.get_char(start);
    let d0 = match char_digit(c0) {
        Some(d) => d,
        None => {
            proof {
                assert forall|n: int| !decimal_at(t@, start as int, n) by {
                    if decimal_at(t@, start as int, n) {
                        lemma_decimal_digits(n);
                        assert(t@.subrange(start as int, start + decimal(n).len())[0] == c0);
                    }
                }
            }
            return None;
        },
    };
    // the digits at start + 1 and start + 2, where there are such
    let d1 = if start + 1 < len {
        char_digit(s.get_char(start + 1))
    } else {
        None
    };
    let d2 = if len - start > 2 && d1.is_some() {
        char_digit(s.get_char(start + 2))
    } else {
        None
    };
    let more = if len - start > 3 && d2.is_some() {
        char_digit(s.get_char(start + 3)).is_some()
    } else {
        false
    };
    proof {
        lemma_decimal_digits(0);
    }
    if d0 == 0 {
        if d1.is_some() {
            proof {
                assert forall|n: int| !decimal_at(t@, start as int, n) by {
                    if decimal_at(t@, start as int, n) {
                        lemma_decimal_digits(n);
                        assert(t@.subrange(start as int, start + decimal(n).len())[0] == c0);
                    }
                }
            }
            return None;
        }
        assert(t@.subrange(start as int, start + 1) =~= decimal(0));
        return Some((0, start + 1));
    }
    match d1 {
        None => {
            assert(t@.subrange(start as int, start + 1) =~= decimal(d0 as int));
            Some((d0, start + 1))
        },
        Some(e1) => {
            match d2 {
                None => {
                    let v = 10 * d0 + e1;
                    assert(v / 10 == d0 && v % 10 == e1);
                    assert(t@.subrange(start as int, start + 2) =~= decimal(v as int));
                    Some((v, start + 2))
                },
                Some(e2) => {
                    let v = 100 * d0 + 10 * e1 + e2;
                    if more || v > 255 {
                        proof {
                            assert forall|n: int| !decimal_at(t@, start as int, n) by {
                                if decimal_at(t@, start as int, n) {
                                    lemma_decimal_digits(n);
                                    let sub = t@.subrange(start as int, start + decimal(n).len());
                                    assert(sub[0] == t@[start as int]);
                                    assert(sub.len() == 3);
                                    assert(sub[1] == t@[start + 1]);
                                    assert(sub[2] == t@[start + 2]);
                                    lemma_digit_round_trip(n / 100);
                                    lemma_digit_round_trip((n / 10) % 10);
                                    lemma_digit_round_trip(n % 10);
                                }
                            }
                        }
                        return None;
                    }
                    assert(v / 100 == d0 && (v / 10) % 10 == e1 && v % 10 == e2);
                    assert(t@.subrange(start as int, start + 3) =~= decimal(v as int));
                    Some((v, start + 3))
                },
            }
        },
    }
}

/// No address value has `text` as its dotted-quad text.
pub open spec fn no_address(text: Seq<char>) -> bool {
    forall|x: u32| dotted(x) != text
}

/// The address value whose dotted-quad text is `text`, if there is one.
pub open spec fn address_value(text: Seq<char>) -> Option<u32> {
    if no_address(text) {
        None
    } else {
        Some(choose|x: u32| dotted(x) == text)
    }
}

/// Distinct address values have distinct dotted-quad texts.
pub proof fn lemma_dotted_injective(x: u32, y: u32)
    requires
        dotted(x) == dotted(y),
    ensures
        x == y,
{
    let t = dotted(x);
    lemma_dotted_fields(x);
    lemma_dotted_fields(y);
    lemma_decimal_at_unique(t, 0, octet(x, 0), octet(y, 0));
    let p1: int = decimal(octet(x, 0)).len() as int + 1;
    lemma_decimal_at_unique(t, p1, octet(x, 1), octet(y, 1));
    let p2: int = p1 + decimal(octet(x, 1)).len() as int + 1;
    lemma_decimal_at_unique(t, p2, octet(x, 2), octet(y, 2));
    let p3: int = p2 + decimal(octet(x, 2)).len() as int + 1;
    lemma_decimal_at_unique(t, p3, octet(x, 3), octet(y, 3));
    assert(((x >> 24u32) & 0xffu32) == ((y >> 24u32) & 0xffu32) && ((x >> 16u32) & 0xffu32) == ((
    y >> 16u32) & 0xffu32) && ((x >> 8u32) & 0xffu32) == ((y >> 8u32) & 0xffu32) && (x & 0xffu32)
        == (y & 0xffu32) ==> x == y) by (bit_vector);
}

/// The text of an address parses back to that address.
pub proof fn lemma_address_value_of_dotted(x: u32)
    ensures
        address_value(dotted(x)) == Some(x),
{
    let t = dotted(x);
    assert(!no_address(t));
    let y = choose|y: u32| dotted(y) == t;
    lemma_dotted_injective(x, y);
}

proof fn lemma_pack_octets(a: u32, b: u32, c: u32, d: u32)
    requires
        a <= 255,
        b <= 255,
        c <= 255,
        d <= 255,
    ensures
        ({
            let x = (a << 24u32) | (b << 16u32) | (c << 8u32) | d;
            octet(x, 0) == a as int && octet(x, 1) == b as int && octet(x, 2) == c as int
                && octet(x, 3) == d as int
        }),
{
    let x = (a << 24u32) | (b << 16u32) | (c << 8u32) | d;
    assert(a <= 255 && b <= 255 && c <= 255 && d <= 255 ==> (((a << 24u32) | (b << 16u32) | (c
        << 8u32) | d) >> 24u32) & 0xffu32 == a) by (bit_vector);
    assert(a <= 255 && b <= 255 && c <= 255 && d <= 255 ==> (((a << 24u32) | (b << 16u32) | (c
        << 8u32) | d) >> 16u32) & 0xffu32 == b) by (bit_vector);
    assert(a <= 255 && b <= 255 && c <= 255 && d <= 255 ==> (((a << 24u32) | (b << 16u32) | (c
        << 8u32) | d) >> 8u32) & 0xffu32 == c) by (bit_vector);
    assert(a <= 255 && b <= 255 && c <= 255 && d <= 255 ==> ((a << 24u32) | (b << 16u32) | (c
        << 8u32) | d) & 0xffu32 == d) by (bit_vector);
}

impl Address {
    /// Parses dotted-quad text: four decimal octets, each at most 255 and without
    /// leading zeros, joined by dots.
    pub fn parse(s: &str) -> (r: Result<Address, AddressParseError>)
        ensures
            match r {
                Ok(a) => dotted(a.bits) == s@,
                Err(_) => no_address(s@),
            },
            r is Ok <==> address_value(s@) is Some,
            r matches Ok(a) ==> address_value(s@) == Some(a.bits),
    {
        let t = Ghost(s@);
        let len = s.unicode_len();
        let (v0, j0) = match read_octet(s, 0) {
            Some(p) => p,
            None => {
                proof {
                    assert forall|x: u32| dotted(x) != t@ by {
                        if dotted(x) == t@ {
                            lemma_dotted_fields(x);
                        }
                    }
                }
                return Err(AddressParseError);
            },
        };
        if j0 >= len || s.get_char(j0) != '.' {
            proof {
                assert forall|x: u32| dotted(x) != t@ by {
                    if dotted(x) == t@ {
                        lemma_dotted_fields(x);
                        lemma_decimal_at_unique(t@, 0, v0 as int, octet(x, 0));
                    }
                }
            }
            return Err(AddressParseError);
        }
        let (v1, j1) = match read_octet(s, j0 + 1) {
            Some(p) => p,
            None => {
                proof {
                    assert forall|x: u32| dotted(x) != t@ by {
                        if dotted(x) == t@ {
                            lemma_dotted_fields(x);
                            lemma_decimal_at_unique(t@, 0, v0 as int, octet(x, 0));
                        }
                    }
                }
                return Err(AddressParseError);
            },
        };
        if j1 >= len || s.get_char(j1) != '.' {
            proof {
                assert forall|x: u32| dotted(x) != t@ by {
                    if dotted(x) == t@ {
                        lemma_dotted_fields(x);
                        lemma_decimal_at_unique(t@, 0, v0 as int, octet(x, 0));
                        lemma_decimal_at_unique(t@, j0 + 1, v1 as int, octet(x, 1));
                    }
                }
            }
            return Err(AddressParseError);
        }
        let (v2, j2) = match read_octet(s, j1 + 1) {
            Some(p) => p,
            None => {
                proof {
                    assert forall|x: u32| dotted(x) != t@ by {
                        if dotted(x) == t@ {
                            lemma_dotted_fields(x);
                            lemma_decimal_at_unique(t@, 0, v0 as int, octet(x, 0));
                            lemma_decimal_at_unique(t@, j0 + 1, v1 as int, octet(x, 1));
                        }
                    }
                }
                return Err(AddressParseError);
            },
        };
        if j2 >= len || s.get_char(j2) != '.' {
            proof {
                assert forall|x: u32| dotted(x) != t@ by {
                    if dotted(x) == t@ {
                        lemma_dotted_fields(x);
                        lemma_decimal_at_unique(t@, 0, v0 as int, octet(x, 0));
                        lemma_decimal_at_unique(t@, j0 + 1, v1 as int, octet(x, 1));
                        lemma_decimal_at_unique(t@, j1 + 1, v2 as int, octet(x, 2));
                    }
                }
            }
            return Err(AddressParseError);
        }
        let (v3, j3) = match read_octet(s, j2 + 1) {
            Some(p) => p,
            None => {
                proof {
                    assert forall|x: u32| dotted(x) != t@ by {
                        if dotted(x) == t@ {
                            lemma_dotted_fields(x);
                            lemma_decimal_at_unique(t@, 0, v0 as int, octet(x, 0));
                            lemma_decimal_at_unique(t@, j0 + 1, v1 as int, octet(x, 1));
                            lemma_decimal_at_unique(t@, j1 + 1, v2 as int, octet(x, 2));
                        }
                    }
                }
                return Err(AddressParseError);
            },
        };
        if j3 != len {
            proof {
                assert forall|x: u32| dotted(x) != t@ by {
                    if dotted(x) == t@ {
                        lemma_dotted_fields(x);
                        lemma_decimal_at_unique(t@, 0, v0 as int, octet(x, 0));
                        lemma_decimal_at_unique(t@, j0 + 1, v1 as int, octet(x, 1));
                        lemma_decimal_at_unique(t@, j1 + 1, v2 as int, octet(x, 2));
                        lemma_decimal_at_unique(t@, j2 + 1, v3 as int, octet(x, 3));
                    }
                }
            }
            return Err(AddressParseError);
        }
        let bits = (v0 << 24u32) | (v1 << 16u32) | (v2 << 8u32) | v3;
        proof {
            lemma_pack_octets(v0, v1, v2, v3);
            assert(t@ =~= t@.subrange(0, j0 as int) + seq!['.'] + t@.subrange(j0 + 1, j1 as int)
                + seq!['.'] + t@.subrange(j1 + 1, j2 as int) + seq!['.'] + t@.subrange(
                j2 + 1,
                j3 as int,
            ));
        }
        proof {
            lemma_address_value_of_dotted(bits);
        }
        Ok(Address { bits })
    }
}

/// The one-character text of a decimal digit.
fn digit_text(d: u32) -> (r: &'static str)
    requires
        d <= 9,
    ensures
        r@ == seq![digit_char(d as int)],
{
    if d == 0 {
        proof { reveal_strlit("0"); }
        "0"
    } else if d == 1 {
        proof { reveal_strlit("1"); }
        "1"
    } else if d == 2 {
        proof { reveal_strlit("2"); }
        "2"
    } else if d == 3 {
        proof { reveal_strlit("3"); }
        "3"
    } else if d == 4 {
        proof { reveal_strlit("4"); }
        "4"
    } else if d == 5 {
        proof { reveal_strlit("5"); }
        "5"
    } else if d == 6 {
        proof { reveal_strlit("6"); }
        "6"
    } else if d == 7 {
        proof { reveal_strlit("7"); }
        "7"
    } else if d == 8 {
        proof { reveal_strlit("8"); }
        "8"
    } else {
        proof { reveal_strlit("9"); }
        "9"
    }
}

/// Appends the decimal text of an octet.
fn push_decimal(out: &mut String, n: u32)
    requires
        n <= 255,
    ensures
        final(out)@ == old(out)@ + decimal(n as int),
{
    if n >= 100 {
        out.append(digit_text(n / 100));
    }
    if n >= 10 {
        out.append(digit_text((n / 10) % 10));
    }
    out.append(digit_text(n % 10));
    assert(final(out)@ =~= old(out)@ + decimal(n as int));
}

impl Address {
    /// The address whose octets are `a.b.c.d`.
    pub fn from_octets(a: u8, b: u8, c: u8, d: u8) -> (r: Address)
        ensures
            octet(r.bits, 0) == a as int,
            octet(r.bits, 1) == b as int,
            octet(r.bits, 2) == c as int,
            octet(r.bits, 3) == d as int,
    {
        let bits = ((a as u32) << 24u32) | ((b as u32) << 16u32) | ((c as u32) << 8u32) | (d as u32);
        proof {
            lemma_pack_octets(a as u32, b as u32, c as u32, d as u32);
        }
        Address { bits }
    }

    /// The dotted-quad text of this address.
    pub fn to_string(&self) -> (r: String)
        ensures
            r@ == dotted(self.bits),
    {
        let x = self.bits;
        let mut out = String::new();
        proof {
            lemma_octet_range(x);
        }
        push_decimal(&mut out, (x >> 24u32) & 0xffu32);
        out.append(".");
        push_decimal(&mut out, (x >> 16u32) & 0xffu32);
        out.append(".");
        push_decimal(&mut out, (x >> 8u32) & 0xffu32);
        out.append(".");
        push_decimal(&mut out, x & 0xffu32);
        proof {
            reveal_strlit(".");
            assert(out@ =~= dotted(x));
        }
        out
    }
}

} // verus!
