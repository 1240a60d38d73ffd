//! Commands of the Kitty terminal graphics protocol: an RGBA image sent as
//! base64 in chunks of 4096 characters, and the command that deletes all images.
use vstd::prelude::*;
use crate::text::{all_digits, chars_of, digit_value, digits_value, is_digit};

verus! {

/// The symbol for a six-bit value in the standard base64 alphabet
/// (`A-Z`, `a-z`, `0-9`, `+`, `/`).
pub open spec fn base64_symbol(v: int) -> char {
    if v < 26 {
        (65 + v) as char
    } else if v < 52 {
        (97 + v - 26) as char
    } else if v < 62 {
        (48 + v - 52) as char
    } else if v == 62 {
        '+'
    } else {
        '/'
    }
}

/// The standard (RFC 4648, padded) base64 encoding of `bytes`: each group of
/// three bytes gives four symbols of six bits each; a final group of one or
/// two bytes gives two or three symbols padded with `=` to four.
pub open spec fn base64_standard(bytes: Seq<u8>) -> Seq<char>
    decreases bytes.len(),
{
    if bytes.len() == 0 {
        Seq::empty()
    } else if bytes.len() == 1 {
        let b0 = bytes[0] as int;
        seq![base64_symbol(b0 / 4), base64_symbol((b0 % 4) * 16), '=', '=']
    } else if bytes.len() == 2 {
        let b0 = bytes[0] as int;
        let b1 = bytes[1] as int;
        seq![
            base64_symbol(b0 / 4),
            base64_symbol((b0 % 4) * 16 + b1 / 16),
            base64_symbol((b1 % 16) * 4),
            '=',
        ]
    } else {
        let b0 = bytes[0] as int;
        let b1 = bytes[1] as int;
        let b2 = bytes[2] as int;
        seq![
            base64_symbol(b0 / 4),
            base64_symbol((b0 % 4) * 16 + b1 / 16),
            base64_symbol((b1 % 16) * 4 + b2 / 64),
            base64_symbol(b2 % 64),
        ] + base64_standard(bytes.skip(3))
    }
}

/// `base64::Engine::encode` with `base64::engine::general_purpose::STANDARD`:
/// the contract claims that the result is the padded standard encoding
/// `base64_standard` of the bytes. The call panics only when the encoded
/// length (four characters per started group of three bytes) overflows
/// `usize`, which `requires` rules out.
#[verifier::external_body]
fn base64_encode(bytes: &[u8]) -> (s: String)
    requires
        bytes@.len() / 3 * 4 + 4 <= usize::MAX,
    ensures
        s@ == base64_standard(bytes@),
{
    base64::Engine::encode(&base64::engine::general_purpose::STANDARD, bytes)
}

pub open spec fn digit_char(d: nat) -> char {
    if d == 0 {
        '0'
    } else if d == 1 {
        '1'
    } else if d == 2 {
        '2'
    } else if d == 3 {
        '3'
    } else if d == 4 {
        '4'
    } else if d == 5 {
        '5'
    } else if d == 6 {
        '6'
    } else if d == 7 {
        '7'
    } else if d == 8 {
        '8'
    } else {
        '9'
    }
}

/// The decimal digits of `n`, without leading zeros.
pub open spec fn decimal(n: nat) -> Seq<char>
    decreases n,
{
    if n < 10 {
        seq![digit_char(n)]
    } else {
        decimal(n / 10).push(digit_char(n % 10))
    }
}

/// The chunk of `b64` with index `i`.
pub open spec fn chunk_of(b64: Seq<char>, i: int) -> Seq<char> {
    let end = if (i + 1) * 4096 <= b64.len() {
        (i + 1) * 4096
    } else {
        b64.len() as int
    };
    b64.subrange(i * 4096, end)
}

pub open spec fn chunk_count(b64: Seq<char>) -> nat {
    ((b64.len() + 4095) / 4096) as nat
}

/// The command for chunk `i`: the first one carries the image format and
/// size, every one says whether more follow (`m=1`) or not (`m=0`).
pub open spec fn chunk_command(b64: Seq<char>, i: int, width: u32, height: u32) -> Seq<char> {
    let more = if i < chunk_count(b64) - 1 {
        '1'
    } else {
        '0'
    };
    if i == 0 {
        "\x1b_Ga=T,f=32,s="@ + decimal(width as nat) + ",v="@ + decimal(height as nat)
            + ",q=2,m="@ + seq![more] + ";"@ + chunk_of(b64, i) + "\x1b\\"@
    } else {
        "\x1b_Gm="@ + seq![more] + ";"@ + chunk_of(b64, i) + "\x1b\\"@
    }
}

/// Every chunk command says whether more follow: it ends with `m=`, the
/// flag, `;`, the chunk and the terminator, and the flag is `1` for every
/// chunk but the last and `0` for the last. The first command alone opens
/// with the transmit action, the RGBA format, the width and then the height.
pub proof fn law_only_the_last_chunk_ends_the_image(b64: Seq<char>, i: int, width: u32, height: u32)
    requires
        0 <= i < chunk_count(b64),
    ensures
        ({
            let c = chunk_command(b64, i, width, height);
            let tail = chunk_of(b64, i) + "\x1b\\"@;
            let flag = if i + 1 < chunk_count(b64) {
                '1'
            } else {
                '0'
            };
            &&& c.len() >= tail.len() + 4
            &&& c.skip(c.len() - tail.len() - 4) == "m="@ + seq![flag] + ";"@ + tail
            &&& i == 0 ==> c.take(c.len() - tail.len() - 4) == "\x1b_Ga=T,f=32,s="@ + decimal(
                width as nat,
            ) + ",v="@ + decimal(height as nat) + ",q=2,"@
            &&& i > 0 ==> c.take(c.len() - tail.len() - 4) == "\x1b_G"@
        }),
{
    reveal_strlit("m=");
    reveal_strlit(";");
    reveal_strlit("\x1b_G");
    reveal_strlit("\x1b_Gm=");
    reveal_strlit("\x1b_Ga=T,f=32,s=");
    reveal_strlit(",v=");
    reveal_strlit(",q=2,m=");
    reveal_strlit("\x1b\\");
    let c = chunk_command(b64, i, width, height);
    let tail = chunk_of(b64, i) + "\x1b\\"@;
    let flag = if i + 1 < chunk_count(b64) {
        '1'
    } else {
        '0'
    };
    let end = "m="@ + seq![flag] + ";"@ + tail;
    if i == 0 {
        let head = "\x1b_Ga=T,f=32,s="@ + decimal(width as nat) + ",v="@ + decimal(height as nat)
            + ",q=2,"@;
        reveal_strlit(",q=2,");
        assert(c =~= head + end);
        assert(c.skip(c.len() - tail.len() - 4) =~= end);
        assert(c.take(c.len() - tail.len() - 4) =~= head);
    } else {
        assert(c =~= "\x1b_G"@ + end);
        assert(c.skip(c.len() - tail.len() - 4) =~= end);
        assert(c.take(c.len() - tail.len() - 4) =~= "\x1b_G"@);
    }
}

proof fn lemma_digit_char(d: nat)
    requires
        d < 10,
    ensures
        is_digit(digit_char(d)),
        digit_value(digit_char(d)) == d,
{
}

/// `decimal(n)` is the decimal numeral of `n`: digits only, worth `n`, and
/// without a leading zero unless it is `0` itself.
pub proof fn law_decimal_denotes(n: nat)
    ensures
        decimal(n).len() > 0,
        all_digits(decimal(n)),
        digits_value(decimal(n)) == n,
        decimal(n).len() > 1 ==> decimal(n)[0] != '0',
        decimal(n).len() == 1 <==> n < 10,
    decreases n,
{
    if n < 10 {
        lemma_digit_char(n);
        assert(decimal(n).drop_last() =~= Seq::<char>::empty());
        assert(digits_value(decimal(n)) == digits_value(Seq::<char>::empty()) * 10 + digit_value(
            digit_char(n),
        ));
    } else {
        lemma_digit_char(n % 10);
        if n / 10 < 10 {
            lemma_digit_char(n / 10);
        }
        law_decimal_denotes(n / 10);
        let d = decimal(n);
        assert(d.drop_last() =~= decimal(n / 10));
        assert(d.last() == digit_char(n % 10));
        assert(digits_value(d) == digits_value(decimal(n / 10)) * 10 + digit_value(digit_char(n % 10)));
        assert(n == (n / 10) * 10 + n % 10);
        assert(d[0] == decimal(n / 10)[0]);
        if decimal(n / 10).len() == 1 {
            assert(n / 10 >= 1);
        }
        assert forall|k: int| 0 <= k < d.len() implies is_digit(#[trigger] d[k]) by {
            if k < d.len() - 1 {
                assert(d[k] == decimal(n / 10)[k]);
            }
        }
    }
}

/// The commands for chunks `i..` of `b64`, one after the other.
pub open spec fn commands_from(b64: Seq<char>, i: int, width: u32, height: u32) -> Seq<char>
    decreases chunk_count(b64) - i,
{
    if i < 0 || i >= chunk_count(b64) {
        Seq::empty()
    } else {
        chunk_command(b64, i, width, height) + commands_from(b64, i + 1, width, height)
    }
}

/// The commands that transmit and show an RGBA image of `width` x `height`
/// pixels at the cursor.
pub open spec fn image_commands(pixels: Seq<u8>, width: u32, height: u32) -> Seq<char> {
    commands_from(base64_standard(pixels), 0, width, height)
}

fn push_str(v: &mut Vec<char>, s: &str)
    ensures
        final(v)@ == old(v)@ + s@,
{
    let c = chars_of(s);
    let mut k: usize = 0;
    let ghost start = v@;
    while k < c.len()
        invariant
            0 <= k <= c@.len(),
            c@ == s@,
            v@ == start + c@.take(k as int),
        decreases c@.len() - k,
    {
        v.push(c[k]);
        k = k + 1;
        assert(v@ =~= start + c@.take(k as int));
    }
    assert(c@.take(k as int) =~= c@);
}

fn digit(d: u32) -> (c: char)
    requires
        d < 10,
    ensures
        c == digit_char(d as nat),
{
    if d == 0 {
        '0'
    } else if d == 1 {
        '1'
    } else if d == 2 {
        '2'
    } else if d == 3 {
        '3'
    } else if d == 4 {
        '4'
    } else if d == 5 {
        '5'
    } else if d == 6 {
        '6'
    } else if d == 7 {
        '7'
    } else if d == 8 {
        '8'
    } else {
        '9'
    }
}

fn push_decimal(v: &mut Vec<char>, n: u32)
    ensures
        final(v)@ == old(v)@ + decimal(n as nat),
    decreases n,
{
    if n < 10 {
        v.push(digit(n));
        assert(decimal(n as nat) =~= seq![digit_char(n as nat)]);
    } else {
        let ghost start = v@;
        push_decimal(v, n / 10);
        v.push(digit(n % 10));
        assert(v@ =~= start + decimal(n as nat));
    }
}

fn push_range(v: &mut Vec<char>, src: &Vec<char>, a: usize, b: usize)
    requires
        a <= b <= src@.len(),
    ensures
        final(v)@ == old(v)@ + src@.subrange(a as int, b as int),
{
    let ghost start = v@;
    let mut k = a;
    while k < b
        invariant
            a <= k <= b <= src@.len(),
            v@ == start + src@.subrange(a as int, k as int),
        decreases b - k,
    {
        v.push(src[k]);
        k = k + 1;
        assert(v@ =~= start + src@.subrange(a as int, k as int));
    }
}

/// Transmits `pixels` (RGBA, `width` x `height`) as base64 in chunks of 4096
/// characters; the first command sets the format and size.
pub fn image_command(pixels: &[u8], width: u32, height: u32) -> (s: String)
    requires
        pixels@.len() / 3 * 4 + 4 <= usize::MAX,
    ensures
        s@ == image_commands(pixels@, width, height),
        pixels@.len() == 0 ==> s@.len() == 0,
{
    let b64 = chars_of(base64_encode(pixels).as_str());
    let ghost e = b64@;
    let len = b64.len();
    let total: usize = len / 4096 + if len % 4096 > 0 {
        1
    } else {
        0
    };
    assert(total == chunk_count(e)) by (nonlinear_arith)
        requires
            total == len / 4096 + if len % 4096 > 0 {
                1int
            } else {
                0int
            },
            len == e.len(),
    ;
    let mut out: Vec<char> = Vec::new();
    let mut i: usize = 0;
    while i < total
        invariant
            e == b64@,
            len == e.len(),
            total == chunk_count(e),
            total == len / 4096 + if len % 4096 > 0 {
                1int
            } else {
                0int
            },
            0 <= i <= total,
            out@ + commands_from(e, i as int, width, height) == commands_from(e, 0, width, height),
        decreases total - i,
    {
        let more = if i < total - 1 {
            '1'
        } else {
            '0'
        };
        let ghost before = out@;
        if i == 0 {
            push_str(&mut out, "\x1b_Ga=T,f=32,s=");
            push_decimal(&mut out, width);
            push_str(&mut out, ",v=");
            push_decimal(&mut out, height);
            push_str(&mut out, ",q=2,m=");
        } else {
            push_str(&mut out, "\x1b_Gm=");
        }
        out.push(more);
        push_str(&mut out, ";");
        assert(i * 4096 < len) by (nonlinear_arith)
            requires
                i < total,
                total == len / 4096 + if len % 4096 > 0 {
                    1int
                } else {
                    0int
                },
        ;
        let start = i * 4096;
        let end = if len - start > 4096 {
            start + 4096
        } else {
            len
        };
        assert(end == if (i + 1) * 4096 <= len {
            (i + 1) * 4096
        } else {
            len as int
        }) by (nonlinear_arith)
            requires
                start == i * 4096,
                start < len,
                end == if len - start > 4096 {
                    start + 4096
                } else {
                    len as int
                },
        ;
        push_range(&mut out, &b64, start, end);
        push_str(&mut out, "\x1b\\");
        proof {
            assert(out@ =~= before + chunk_command(e, i as int, width, height));
            assert(commands_from(e, i as int, width, height) =~= chunk_command(
                e,
                i as int,
                width,
                height,
            ) + commands_from(e, i + 1, width, height));
        }
        i = i + 1;
    }
    assert(commands_from(e, i as int, width, height) =~= Seq::<char>::empty());
    assert(out@ =~= commands_from(e, 0, width, height));
    assert(pixels@.len() == 0 ==> e.len() == 0);
    crate::text::string_from_chars(&out)
}

/// Deletes all images that the terminal shows.
pub fn clear_images_command() -> (s: String)
    ensures
        s@ == "\x1b_Ga=d,d=a\x1b\\"@,
{
    String::from_str("\x1b_Ga=d,d=a\x1b\\")
}

/// The chunks `i..` of `b64`, one after the other.
pub open spec fn chunks_from(b64: Seq<char>, i: int) -> Seq<char>
    decreases chunk_count(b64) - i,
{
    if i < 0 || i >= chunk_count(b64) {
        Seq::empty()
    } else {
        chunk_of(b64, i) + chunks_from(b64, i + 1)
    }
}

proof fn lemma_chunks_from(b64: Seq<char>, i: int)
    requires
        0 <= i <= chunk_count(b64),
    ensures
        i * 4096 <= b64.len() + 4095,
        chunks_from(b64, i) == b64.subrange(
            if i * 4096 <= b64.len() {
                i * 4096
            } else {
                b64.len() as int
            },
            b64.len() as int,
        ),
    decreases chunk_count(b64) - i,
{
    let len = b64.len() as int;
    let n = chunk_count(b64) as int;
    assert(n == (len + 4095) / 4096);
    assert(i <= n ==> i * 4096 <= len + 4095) by (nonlinear_arith)
        requires
            n == (len + 4095) / 4096,
            len >= 0,
    ;
    if i < n {
        assert(i * 4096 < len) by (nonlinear_arith)
            requires
                i < n,
                n == (len + 4095) / 4096,
                i >= 0,
        ;
        lemma_chunks_from(b64, i + 1);
        assert((i + 1) * 4096 == i * 4096 + 4096);
        assert(chunks_from(b64, i) =~= b64.subrange(i * 4096, len));
    } else {
        assert(n * 4096 >= len) by (nonlinear_arith)
            requires
                n == (len + 4095) / 4096,
                len >= 0,
        ;
        assert(chunks_from(b64, i) =~= b64.subrange(len, len));
    }
}

/// The payload is carried whole and in order: the chunks of the base64
/// text, one after the other, are that text, and no chunk holds more than
/// 4096 characters.
pub proof fn law_chunks_carry_whole_payload(b64: Seq<char>)
    ensures
        chunks_from(b64, 0) == b64,
        forall|i: int| 0 <= i < chunk_count(b64) ==> (#[trigger] chunk_of(b64, i)).len() <= 4096,
{
    lemma_chunks_from(b64, 0);
    assert(b64.subrange(0, b64.len() as int) =~= b64);
    assert forall|i: int| 0 <= i < chunk_count(b64) implies (#[trigger] chunk_of(b64, i)).len()
        <= 4096 by {
        let len = b64.len() as int;
        let n = chunk_count(b64) as int;
        assert(i * 4096 < len) by (nonlinear_arith)
            requires
                i < n,
                n == (len + 4095) / 4096,
                i >= 0,
        ;
        assert((i + 1) * 4096 == i * 4096 + 4096);
    }
}

} // verus!
