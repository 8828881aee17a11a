//! Bytes as readable text.

use vstd::prelude::*;

verus! {

/// `String::push` appends one character to the end of the string.
pub assume_specification[ String::push ](s: &mut String, c: char)
    ensures
        final(s)@ == old(s)@.push(c),
;

/// The character for a base-64 digit.
pub open spec fn base64_digit(v: int) -> char {
    if v < 26 {
        (65 + v) as char
    } else if v < 52 {
        (97 + v - 26) as char
    } else if v < 62 {
        (48 + v - 52) as char
    } else if v == 62 {
        '+'
    } else {
        '/'
    }
}

/// Character `i` of the base-64 text of `s`. Each three bytes give four digits
/// of six bits, highest first; a last group that is short is filled with zero
/// bits, and its missing digits are written `=`.
pub open spec fn base64_char(s: Seq<u8>, i: int) -> char {
    let g = 3 * (i / 4);
    let a = s[g] as int;
    let b = if g + 1 < s.len() {
        s[g + 1] as int
    } else {
        0
    };
    let c = if g + 2 < s.len() {
        s[g + 2] as int
    } else {
        0
    };
    let bits = 65536 * a + 256 * b + c;
    if i % 4 == 0 {
        base64_digit(bits / 262144)
    } else if i % 4 == 1 {
        base64_digit(bits / 4096 % 64)
    } else if i % 4 == 2 {
        if g + 1 < s.len() {
            base64_digit(bits / 64 % 64)
        } else {
            '='
        }
    } else if g + 2 < s.len() {
        base64_digit(bits % 64)
    } else {
        '='
    }
}

/// The base-64 text of a byte string, with the standard digits and padding.
pub open spec fn base64_text(s: Seq<u8>) -> Seq<char> {
    Seq::new((4 * ((s.len() + 2) / 3)) as nat, |i: int| base64_char(s, i))
}

/// Runs `base64::encode`, which writes its input in base 64 with the standard
/// character set (`A`-`Z`, `a`-`z`, `0`-`9`, `+`, `/`) and with padding.
#[verifier::external_body]
pub(crate) fn base64_encode(bytes: &[u8; 32]) -> (r: String)
    ensures
        r@ == base64_text(bytes@),
{
    base64::encode(&bytes[..])
}

/// The character for a decimal digit.
pub open spec fn decimal_digit(d: int) -> char {
    (48 + d) as char
}

/// A byte as a decimal number.
pub open spec fn decimal(b: u8) -> Seq<char> {
    if b < 10 {
        seq![decimal_digit(b as int)]
    } else if b < 100 {
        seq![decimal_digit(b as int / 10), decimal_digit(b as int % 10)]
    } else {
        seq![
            decimal_digit(b as int / 100),
            decimal_digit(b as int / 10 % 10),
            decimal_digit(b as int % 10),
        ]
    }
}

/// The bytes as decimal numbers, with a comma and a space between them.
pub open spec fn decimal_list(bytes: Seq<u8>) -> Seq<char>
    decreases bytes.len(),
{
    if bytes.len() == 0 {
        seq![]
    } else if bytes.len() == 1 {
        decimal(bytes[0])
    } else {
        decimal_list(bytes.drop_last()) + seq![',', ' '] + decimal(bytes.last())
    }
}

/// Appends a byte as a decimal number.
pub(crate) fn push_decimal(out: &mut String, b: u8)
    ensures
        final(out)@ == old(out)@ + decimal(b),
{
    let ghost start = out@;
    if b >= 100 {
        out.push((48 + b / 100) as char);
    }
    if b >= 10 {
        out.push((48 + b / 10 % 10) as char);
    }
    out.push((48 + b % 10) as char);
    assert(out@ =~= start + decimal(b));
}

/// Appends the bytes as a list of decimal numbers in square brackets.
pub(crate) fn push_byte_list(out: &mut String, bytes: &[u8])
    ensures
        final(out)@ == old(out)@ + seq!['['] + decimal_list(bytes@) + seq![']'],
{
    let ghost start = out@ + seq!['['];
    out.push('[');
    let mut i: usize = 0;
    assert(out@ =~= start);
    assert(bytes@.take(0) =~= seq![]);
    while i < bytes.len()
        invariant
            i <= bytes@.len(),
            out@ == start + decimal_list(bytes@.take(i as int)),
        decreases bytes@.len() - i,
    {
        let ghost done = bytes@.take(i as int);
        let ghost next = bytes@.take(i + 1);
        assert(next.drop_last() =~= done);
        let ghost before = out@;
        if i > 0 {
            out.push(',');
            out.push(' ');
            assert(out@ =~= before + seq![',', ' ']);
        }
        push_decimal(out, bytes[i]);
        assert(out@ =~= start + decimal_list(next));
        i += 1;
    }
    assert(bytes@.take(i as int) =~= bytes@);
    let ghost before = out@;
    out.push(']');
    assert(out@ =~= before + seq![']']);
}

/// The character for a hexadecimal digit, in lower case.
pub open spec fn hex_digit(d: int) -> char {
    if d < 10 {
        (48 + d) as char
    } else {
        (87 + d) as char
    }
}

/// A byte as printable ASCII: tab, line ends, quotes and the backslash as two
/// characters, other printable ASCII as it is, and the rest as `\x` and two
/// hexadecimal digits.
pub open spec fn escaped_byte(b: u8) -> Seq<char> {
    if b == 9 {
        seq!['\\', 't']
    } else if b == 10 {
        seq!['\\', 'n']
    } else if b == 13 {
        seq!['\\', 'r']
    } else if b == 34 {
        seq!['\\', '"']
    } else if b == 39 {
        seq!['\\', '\'']
    } else if b == 92 {
        seq!['\\', '\\']
    } else if 32 <= b <= 126 {
        seq![b as char]
    } else {
        seq!['\\', 'x', hex_digit(b as int / 16), hex_digit(b as int % 16)]
    }
}

/// A byte string as printable ASCII.
pub open spec fn escaped_text(bytes: Seq<u8>) -> Seq<char>
    decreases bytes.len(),
{
    if bytes.len() == 0 {
        seq![]
    } else {
        escaped_text(bytes.drop_last()) + escaped_byte(bytes.last())
    }
}

fn hex_char(d: u8) -> (c: char)
    requires
        d < 16,
    ensures
        c == hex_digit(d as int),
{
    if d < 10 {
        (48 + d) as char
    } else {
        (87 + d) as char
    }
}

fn push_escaped(out: &mut String, b: u8)
    ensures
        final(out)@ == old(out)@ + escaped_byte(b),
{
    let ghost start = out@;
    if 32 <= b && b <= 126 && b != 34 && b != 39 && b != 92 {
        out.push(b as char);
    } else {
        out.push('\\');
        if b == 9 {
            out.push('t');
        } else if b == 10 {
            out.push('n');
        } else if b == 13 {
            out.push('r');
        } else if b == 34 {
            out.push('"');
        } else if b == 39 {
            out.push('\'');
        } else if b == 92 {
            out.push('\\');
        } else {
            out.push('x');
            out.push(hex_char(b / 16));
            out.push(hex_char(b % 16));
        }
    }
    assert(out@ =~= start + escaped_byte(b));
}

/// Creates an escaped ASCII string from the given bytes.
pub fn escaped(bytes: &[u8]) -> (r: String)
    ensures
        r@ == escaped_text(bytes@),
{
    let mut out = String::new();
    let mut i: usize = 0;
    assert(bytes@.take(0) =~= seq![]);
    while i < bytes.len()
        invariant
            i <= bytes@.len(),
            out@ == escaped_text(bytes@.take(i as int)),
        decreases bytes@.len() - i,
    {
        assert(bytes@.take(i + 1).drop_last() =~= bytes@.take(i as int));
        push_escaped(&mut out, bytes[i]);
        i += 1;
    }
    assert(bytes@.take(i as int) =~= bytes@);
    out
}

/// Escaped text holds printable ASCII only.
pub proof fn law_escaped_is_printable(bytes: Seq<u8>)
    ensures
        forall|i: int|
            0 <= i < escaped_text(bytes).len() ==> ' ' <= #[trigger] escaped_text(bytes)[i] <= '~',
    decreases bytes.len(),
{
    if bytes.len() > 0 {
        law_escaped_is_printable(bytes.drop_last());
        let head = escaped_text(bytes.drop_last());
        let tail = escaped_byte(bytes.last());
        assert forall|i: int| 0 <= i < escaped_text(bytes).len() implies ' '
            <= #[trigger] escaped_text(bytes)[i] <= '~' by {
            if i < head.len() {
                assert(escaped_text(bytes)[i] == head[i]);
            } else {
                assert(escaped_text(bytes)[i] == tail[i - head.len()]);
            }
        }
    }
}

/// The text of the first byte comes first.
proof fn lemma_escaped_front(bytes: Seq<u8>)
    requires
        bytes.len() > 0,
    ensures
        escaped_text(bytes) == escaped_byte(bytes[0]) + escaped_text(bytes.drop_first()),
    decreases bytes.len(),
{
    let rest = bytes.drop_first();
    if bytes.len() == 1 {
        assert(bytes.drop_last() =~= seq![]);
        assert(rest =~= seq![]);
    } else {
        lemma_escaped_front(bytes.drop_last());
        assert(bytes.drop_last().drop_first() =~= rest.drop_last());
    }
    assert(escaped_text(bytes) =~= escaped_byte(bytes[0]) + escaped_text(rest));
}

/// No byte's text begins another's.
proof fn lemma_escaped_split(x: u8, s: Seq<char>, y: u8, t: Seq<char>)
    requires
        escaped_byte(x) + s == escaped_byte(y) + t,
    ensures
        x == y,
        s == t,
{
    let ex = escaped_byte(x);
    let ey = escaped_byte(y);
    let u = ex + s;
    assert(u[0] == ex[0] && u[0] == ey[0]);
    if ex.len() > 1 {
        assert(ey.len() > 1);
        assert(u[1] == ex[1] && u[1] == ey[1]);
        if ex.len() == 4 {
            assert(ey.len() == 4);
            assert(u[2] == ex[2] && u[2] == ey[2]);
            assert(u[3] == ex[3] && u[3] == ey[3]);
            assert(x as int / 16 == y as int / 16);
            assert(x as int % 16 == y as int % 16);
        }
    }
    assert(x == y);
    assert(s =~= u.skip(ex.len() as int));
    assert(t =~= u.skip(ex.len() as int));
}

/// Escaping loses nothing: different byte strings have different texts.
pub proof fn law_escaped_is_injective(a: Seq<u8>, b: Seq<u8>)
    requires
        escaped_text(a) == escaped_text(b),
    ensures
        a == b,
    decreases a.len(),
{
    if a.len() > 0 {
        lemma_escaped_front(a);
    }
    if b.len() > 0 {
        lemma_escaped_front(b);
    }
    if a.len() > 0 && b.len() > 0 {
        lemma_escaped_split(
            a[0],
            escaped_text(a.drop_first()),
            b[0],
            escaped_text(b.drop_first()),
        );
        law_escaped_is_injective(a.drop_first(), b.drop_first());
        assert(a =~= seq![a[0]] + a.drop_first());
        assert(b =~= seq![b[0]] + b.drop_first());
    } else {
        if a.len() > 0 {
            assert(escaped_byte(a[0]).len() > 0);
            assert(escaped_text(b).len() == 0);
        }
        if b.len() > 0 {
            assert(escaped_byte(b[0]).len() > 0);
            assert(escaped_text(a).len() == 0);
        }
        assert(a =~= b);
    }
}

/// A decimal number is made of digits, does not begin with a zero unless it is
/// one, and is worth the byte that it stands for.
pub proof fn law_decimal_reads_back(b: u8, i: int)
    ensures
        0 < decimal(b).len() <= 3,
        0 <= i < decimal(b).len() ==> '0' <= decimal(b)[i] <= '9',
        decimal(b).len() > 1 ==> decimal(b)[0] != '0',
        decimal(b).len() == 1 ==> b == decimal(b)[0] as int - 48,
        decimal(b).len() == 2 ==> b == 10 * (decimal(b)[0] as int - 48) + (decimal(b)[1] as int
            - 48),
        decimal(b).len() == 3 ==> b == 100 * (decimal(b)[0] as int - 48) + 10 * (decimal(
            b,
        )[1] as int - 48) + (decimal(b)[2] as int - 48),
{
}

/// Lists of decimal numbers are put together with a comma and a space.
pub proof fn law_decimal_lists_are_joined(a: Seq<u8>, b: Seq<u8>, x: u8)
    requires
        a.len() > 0,
        b.len() > 0,
    ensures
        decimal_list(Seq::<u8>::empty()).len() == 0,
        decimal_list(seq![x]) == decimal(x),
        decimal_list(a + b) == decimal_list(a) + seq![',', ' '] + decimal_list(b),
    decreases b.len(),
{
    let all = a + b;
    assert(all.drop_last() =~= a + b.drop_last());
    assert(all.last() == b.last());
    if b.len() == 1 {
        assert(b.drop_last() =~= seq![]);
        assert(a + b.drop_last() =~= a);
    } else {
        law_decimal_lists_are_joined(a, b.drop_last(), x);
        assert(decimal_list(all) =~= decimal_list(a) + seq![',', ' '] + decimal_list(b));
    }
}

/// Escaped texts are put together as the bytes are.
pub proof fn law_escaped_texts_are_joined(a: Seq<u8>, b: Seq<u8>)
    ensures
        escaped_text(Seq::<u8>::empty()).len() == 0,
        escaped_text(a + b) == escaped_text(a) + escaped_text(b),
    decreases b.len(),
{
    if b.len() == 0 {
        assert(a + b =~= a);
        assert(escaped_text(a) + escaped_text(b) =~= escaped_text(a));
    } else {
        law_escaped_texts_are_joined(a, b.drop_last());
        assert((a + b).drop_last() =~= a + b.drop_last());
        assert((a + b).last() == b.last());
        assert(escaped_text(a + b) =~= escaped_text(a) + escaped_text(b));
    }
}

/// How one byte is escaped: printable ASCII as it is, but for quotes and the
/// backslash, which get a backslash in front; tab and line ends as a backslash
/// and their letter; the rest as a backslash, an `x` and two hexadecimal digits
/// that are worth the byte.
pub proof fn law_escaped_byte_by_byte(b: u8)
    ensures
        ({
            let text = escaped_text(seq![b]);
            if b == 9 {
                text == seq!['\\', 't']
            } else if b == 10 {
                text == seq!['\\', 'n']
            } else if b == 13 {
                text == seq!['\\', 'r']
            } else if b == 34 || b == 39 || b == 92 {
                text == seq!['\\', b as char]
            } else if 32 <= b < 127 {
                text == seq![b as char]
            } else {
                &&& text.len() == 4
                &&& text[0] == '\\'
                &&& text[1] == 'x'
                &&& '0' <= text[2] <= '9' || 'a' <= text[2] <= 'f'
                &&& '0' <= text[3] <= '9' || 'a' <= text[3] <= 'f'
                &&& b == 16 * (if text[2] <= '9' {
                    text[2] as int - 48
                } else {
                    text[2] as int - 87
                }) + (if text[3] <= '9' {
                    text[3] as int - 48
                } else {
                    text[3] as int - 87
                })
            }
        }),
{
    let one = seq![b];
    assert(one.drop_last().len() == 0);
    assert(escaped_text(one.drop_last()).len() == 0);
    assert(one.last() == b);
    assert(escaped_text(one) =~= escaped_byte(b));
}

/// The escaped text of bytes, told by what goes in and comes out: what two parts
/// give, one after the other, and so of all bytes what each gives alone.
pub proof fn law_escaping_goes_part_by_part(
    a: &[u8],
    b: &[u8],
    ab: &[u8],
    ra: String,
    rb: String,
    rab: String,
)
    requires
        ab@ == a@ + b@,
        call_ensures(escaped, (a,), ra),
        call_ensures(escaped, (b,), rb),
        call_ensures(escaped, (ab,), rab),
    ensures
        rab@ == ra@ + rb@,
        a@.len() == 0 ==> ra@.len() == 0,
{
    law_escaped_texts_are_joined(a@, b@);
}

} // verus!
