//! Building the texts that are shown to the user.

use vstd::prelude::*;

verus! {

/// The decimal digit for `d`.
pub open spec fn digit(d: int) -> Seq<char> {
    if d == 0 {
        "0"@
    } else if d == 1 {
        "1"@
    } else if d == 2 {
        "2"@
    } else if d == 3 {
        "3"@
    } else if d == 4 {
        "4"@
    } else if d == 5 {
        "5"@
    } else if d == 6 {
        "6"@
    } else if d == 7 {
        "7"@
    } else if d == 8 {
        "8"@
    } else {
        "9"@
    }
}

/// `n` in decimal.
pub open spec fn dec(n: int) -> Seq<char>
    decreases n,
{
    if n < 10 {
        digit(n)
    } else {
        dec(n / 10) + digit(n % 10)
    }
}

/// `n` in decimal, with zeros in front to make it at least `width` characters.
pub open spec fn padded(n: int, width: int) -> Seq<char>
    decreases width,
{
    if n < 10 && width <= 1 {
        digit(n)
    } else if n < 10 {
        padded(0, width - 1) + digit(n)
    } else if width <= 1 {
        dec(n)
    } else {
        padded(n / 10, width - 1) + digit(n % 10)
    }
}

/// The decimal digit for `d`.
pub fn show_digit(d: u64) -> (r: &'static str)
    requires
        d < 10,
    ensures
        r@ == digit(d as int),
{
    if d == 0 {
        "0"
    } else if d == 1 {
        "1"
    } else if d == 2 {
        "2"
    } else if d == 3 {
        "3"
    } else if d == 4 {
        "4"
    } else if d == 5 {
        "5"
    } else if d == 6 {
        "6"
    } else if d == 7 {
        "7"
    } else if d == 8 {
        "8"
    } else {
        "9"
    }
}

/// `n` in decimal.
pub fn show(n: u64) -> (r: String)
    ensures
        r@ == dec(n as int),
    decreases n,
{
    if n < 10 {
        show_digit(n).to_owned()
    } else {
        let mut r = show(n / 10);
        r.append(show_digit(n % 10));
        r
    }
}

/// `n` in decimal, for a size.
pub fn show_size(n: usize) -> (r: String)
    ensures
        r@ == dec(n as int),
{
    show(n as u64)
}

/// `n` in decimal, with zeros in front to make it at least `width` characters.
pub fn show_padded(n: u64, width: u64) -> (r: String)
    ensures
        r@ == padded(n as int, width as int),
    decreases width,
{
    if n < 10 && width <= 1 {
        show_digit(n).to_owned()
    } else if n < 10 {
        let mut r = show_padded(0, width - 1);
        r.append(show_digit(n));
        r
    } else if width <= 1 {
        show(n)
    } else {
        let mut r = show_padded(n / 10, width - 1);
        r.append(show_digit(n % 10));
        r
    }
}

/// The text that `String::from_utf8_lossy` makes of bytes.
pub uninterp spec fn utf8_lossy(bytes: Seq<u8>) -> Seq<char>;

/// Calls `String::from_utf8_lossy`, which depends on the bytes alone: what is
/// UTF-8 is kept as it is, and what is not is replaced. What an invalid part is
/// replaced by is not said, only that it is the same each time.
#[verifier::external_body]
pub(crate) fn from_utf8_lossy(bytes: &[u8]) -> (r: String)
    ensures
        r@ == utf8_lossy(bytes@),
        vstd::utf8::valid_utf8(bytes@) ==> r@ == vstd::utf8::decode_utf8(bytes@),
{
    String::from_utf8_lossy(bytes).into_owned()
}

/// A text takes at least as many bytes as it has characters.
pub proof fn lemma_encode_long(text: Seq<char>)
    ensures
        vstd::utf8::encode_utf8(text).len() >= text.len(),
    decreases text.len(),
{
    if text.len() > 0 {
        lemma_encode_long(text.drop_first());
    }
}

/// Whether half of a pair that stands for one character begins the bytes: systems that
/// name things by 16-bit units let it stand alone.
pub open spec fn lone_half(bytes: Seq<u8>) -> bool {
    bytes.len() >= 3 && bytes[0] == 0xed && 0xa0 <= bytes[1] <= 0xbf && 0x80 <= bytes[2] <= 0xbf
}

/// The bytes with each half that stands alone replaced by the replacement character.
pub open spec fn mended(bytes: Seq<u8>) -> Seq<u8>
    decreases bytes.len(),
{
    if bytes.len() == 0 {
        Seq::empty()
    } else if lone_half(bytes) {
        seq![0xefu8, 0xbfu8, 0xbdu8] + mended(bytes.skip(3))
    } else {
        seq![bytes[0]] + mended(bytes.skip(1))
    }
}

/// Replaces each half that stands alone by the replacement character.
pub fn mend(bytes: &[u8]) -> (r: Vec<u8>)
    ensures
        r@ == mended(bytes@),
{
    let mut r: Vec<u8> = Vec::new();
    let mut i: usize = 0;
    assert(bytes@.skip(0) =~= bytes@);
    assert(r@ + mended(bytes@) =~= mended(bytes@));
    while i < bytes.len()
        invariant
            0 <= i <= bytes.len(),
            r@ + mended(bytes@.skip(i as int)) == mended(bytes@),
        decreases bytes.len() - i,
    {
        let ghost rest = bytes@.skip(i as int);
        let ghost before = r@;
        assert(rest[0] == bytes@[i as int]);
        let half = bytes.len() - i >= 3 && bytes[i] == 0xed && bytes[i + 1] >= 0xa0 && bytes[i + 1]
            <= 0xbf && bytes[i + 2] >= 0x80 && bytes[i + 2] <= 0xbf;
        if bytes.len() - i >= 3 {
            assert(rest[1] == bytes@[i + 1] && rest[2] == bytes@[i + 2]);
        }
        if half {
            r.push(0xef);
            r.push(0xbf);
            r.push(0xbd);
            assert(rest.skip(3) =~= bytes@.skip(i + 3));
            assert(r@ + mended(rest.skip(3)) =~= before + mended(rest));
            i = i + 3;
        } else {
            r.push(bytes[i]);
            assert(rest.skip(1) =~= bytes@.skip(i + 1));
            assert(r@ + mended(rest.skip(1)) =~= before + mended(rest));
            i = i + 1;
        }
    }
    assert(r@ + mended(bytes@.skip(i as int)) =~= r@);
    r
}

proof fn lemma_no_lone_half(bytes: Seq<u8>, i: int)
    requires
        vstd::utf8::valid_utf8(bytes),
        0 <= i < bytes.len(),
    ensures
        !lone_half(bytes.skip(i)),
{
    let rest = bytes.skip(i);
    if lone_half(rest) {
        assert(rest[0] == bytes[i]);
        vstd::utf8::is_char_boundary_iff_not_is_continuation_byte(bytes, i);
        vstd::utf8::valid_utf8_split(bytes, i);
        assert(rest =~= bytes.subrange(i, bytes.len() as int));
        let b = rest[1];
        let c = rest[2];
        assert(0xa0 <= b <= 0xbf && 0x80 <= c <= 0xbf ==> 0xd800u32 <= ((((0xedu8 & 0x0f) as u32)
            << 12) | (((b & 0x3f) as u32) << 6) | ((c & 0x3f) as u32)) <= 0xdfffu32) by (bit_vector);
        assert(vstd::utf8::valid_first_scalar(rest));
    }
}

/// What is UTF-8 holds no half that stands alone, and is kept as it is.
pub proof fn lemma_mended_same(bytes: Seq<u8>)
    requires
        vstd::utf8::valid_utf8(bytes),
    ensures
        mended(bytes) == bytes,
{
    lemma_mended_rest(bytes, bytes.len() as int);
    assert(bytes.skip(0) =~= bytes);
}

proof fn lemma_mended_rest(bytes: Seq<u8>, n: int)
    requires
        vstd::utf8::valid_utf8(bytes),
        0 <= n <= bytes.len(),
    ensures
        mended(bytes.skip(bytes.len() - n)) == bytes.skip(bytes.len() - n),
    decreases n,
{
    let rest = bytes.skip(bytes.len() - n);
    if n > 0 {
        lemma_mended_rest(bytes, n - 1);
        lemma_no_lone_half(bytes, bytes.len() - n);
        assert(rest.skip(1) =~= bytes.skip(bytes.len() - (n - 1)));
        assert(seq![rest[0]] + rest.skip(1) =~= rest);
    } else {
        assert(rest =~= Seq::<u8>::empty());
    }
}

/// A text that ends in `tail`.
pub fn cat(head: &str, tail: &str) -> (r: String)
    ensures
        r@ == head@ + tail@,
{
    let mut r = head.to_owned();
    r.append(tail);
    r
}

/// The contents of some lines.
pub open spec fn lines_view(v: Seq<String>) -> Seq<Seq<char>> {
    Seq::new(v.len(), |i: int| v[i]@)
}

/// Adds a line.
pub fn push_line(lines: &mut Vec<String>, line: String)
    ensures
        lines_view(final(lines)@) == lines_view(old(lines)@).push(line@),
{
    lines.push(line);
    assert(lines_view(lines@) =~= lines_view(old(lines)@).push(line@));
}

/// Texts are encoded one behind the other.
pub proof fn lemma_encode_concat(a: Seq<char>, b: Seq<char>)
    ensures
        vstd::utf8::encode_utf8(a + b) == vstd::utf8::encode_utf8(a) + vstd::utf8::encode_utf8(b),
    decreases a.len(),
{
    if a.len() == 0 {
        assert(a + b =~= b);
        assert(vstd::utf8::encode_utf8(a) =~= Seq::<u8>::empty());
        assert(vstd::utf8::encode_utf8(b) =~= Seq::<u8>::empty() + vstd::utf8::encode_utf8(b));
    } else {
        assert((a + b).drop_first() =~= a.drop_first() + b);
        lemma_encode_concat(a.drop_first(), b);
        assert(vstd::utf8::encode_utf8(a + b) =~= vstd::utf8::encode_utf8(a)
            + vstd::utf8::encode_utf8(b));
    }
}

/// Whether a text stands somewhere in another one.
pub open spec fn holds(whole: Seq<char>, part: Seq<char>) -> bool {
    exists|k: int|
        0 <= k && k + part.len() <= whole.len() && #[trigger] whole.subrange(k, k + part.len())
            == part
}

/// A text holds each that it is put together from.
pub proof fn lemma_holds(head: Seq<char>, part: Seq<char>, tail: Seq<char>)
    ensures
        holds(head + part + tail, part),
{
    let k = head.len() as int;
    assert((head + part + tail).subrange(k, k + part.len()) =~= part);
}

/// A text holds what stands at some place of it.
pub proof fn lemma_holds_at(whole: Seq<char>, part: Seq<char>, k: int)
    requires
        0 <= k,
        k + part.len() <= whole.len(),
        forall|i: int| 0 <= i < part.len() ==> whole[k + i] == #[trigger] part[i],
    ensures
        holds(whole, part),
{
    assert(whole.subrange(k, k + part.len()) =~= part);
}

/// The number that decimal digits stand for.
pub open spec fn number(s: Seq<char>) -> int
    decreases s.len(),
{
    if s.len() == 0 {
        0
    } else {
        10 * number(s.drop_last()) + (s.last() as int - 48)
    }
}

proof fn lemma_digit(d: int)
    requires
        0 <= d < 10,
    ensures
        digit(d).len() == 1,
        digit(d)[0] as int == 48 + d,
{
    reveal_strlit("0");
    reveal_strlit("1");
    reveal_strlit("2");
    reveal_strlit("3");
    reveal_strlit("4");
    reveal_strlit("5");
    reveal_strlit("6");
    reveal_strlit("7");
    reveal_strlit("8");
    reveal_strlit("9");
}

/// A number is shown by the digits that stand for it, with no zero in front but that of
/// zero itself.
pub proof fn law_dec(n: int)
    requires
        0 <= n,
    ensures
        number(dec(n)) == n,
        dec(n).len() > 0,
        forall|i: int| 0 <= i < dec(n).len() ==> 48 <= #[trigger] dec(n)[i] as int <= 57,
        n > 0 ==> dec(n)[0] as int > 48,
    decreases n,
{
    lemma_digit(n % 10);
    assert(number(Seq::<char>::empty()) == 0);
    if n < 10 {
        assert(dec(n) == digit(n % 10));
        assert(dec(n).drop_last() =~= Seq::<char>::empty());
    } else {
        law_dec(n / 10);
        assert(dec(n).drop_last() =~= dec(n / 10));
        assert(dec(n).last() == digit(n % 10)[0]);
        assert(dec(n)[0] == dec(n / 10)[0]);
    }
}

/// A number that is filled up with zeros stands for the same, and is at least as long as
/// it is to be.
pub proof fn law_padded(n: int, width: int)
    requires
        0 <= n,
        1 <= width,
    ensures
        number(padded(n, width)) == n,
        padded(n, width).len() >= width,
    decreases width,
{
    lemma_digit(n % 10);
    assert(number(Seq::<char>::empty()) == 0);
    if n < 10 {
        assert(n % 10 == n);
    }
    if n < 10 && width <= 1 {
        assert(padded(n, width).drop_last() =~= Seq::<char>::empty());
    } else if n < 10 {
        law_padded(0, width - 1);
        assert(padded(n, width).drop_last() =~= padded(0, width - 1));
        assert(padded(n, width).last() == digit(n)[0]);
    } else if width <= 1 {
        law_dec(n);
    } else {
        law_padded(n / 10, width - 1);
        assert(padded(n, width).drop_last() =~= padded(n / 10, width - 1));
        assert(padded(n, width).last() == digit(n % 10)[0]);
    }
}

/// Replacing halves that stand alone replaces nothing else, and keeps the length: each byte
/// is the one that was there, or one of a half.
pub proof fn law_mended(bytes: Seq<u8>, i: int)
    requires
        0 <= i < bytes.len(),
    ensures
        mended(bytes).len() == bytes.len(),
        mended(bytes)[i] == bytes[i] || exists|k: int|
            0 <= k <= i < k + 3 && #[trigger] lone_half(bytes.skip(k)) && mended(bytes)[i]
                == seq![0xefu8, 0xbfu8, 0xbdu8][i - k],
        lone_half(bytes) ==> mended(bytes)[0] == 0xef && mended(bytes)[1] == 0xbf && mended(
            bytes,
        )[2] == 0xbd,
    decreases bytes.len(),
{
    let n: int = if lone_half(bytes) {
        3
    } else {
        1
    };
    let rest = bytes.skip(n);
    if rest.len() > 0 {
        law_mended(
            rest,
            if i >= n {
                i - n
            } else {
                0
            },
        );
    } else {
        assert(mended(rest).len() == 0);
    }
    if i >= n {
        assert(mended(bytes)[i] == mended(rest)[i - n]);
        assert(rest[i - n] == bytes[i]);
        if mended(rest)[i - n] != rest[i - n] {
            let k = choose|k: int|
                0 <= k <= i - n < k + 3 && #[trigger] lone_half(rest.skip(k)) && mended(rest)[i - n]
                    == seq![0xefu8, 0xbfu8, 0xbdu8][i - n - k];
            assert(rest.skip(k) =~= bytes.skip(k + n));
            assert(lone_half(bytes.skip(k + n)));
        }
    } else if n == 3 {
        assert(bytes.skip(0) =~= bytes);
        assert(lone_half(bytes.skip(0)));
    }
}

/// Different numbers are shown differently, whatever stands before and behind.
pub proof fn law_dec_differs(head: Seq<char>, a: int, b: int, tail: Seq<char>)
    requires
        0 <= a,
        0 <= b,
        a != b,
    ensures
        vstd::utf8::encode_utf8(head + dec(a) + tail) != vstd::utf8::encode_utf8(
            head + dec(b) + tail,
        ),
{
    let x = head + dec(a) + tail;
    let y = head + dec(b) + tail;
    vstd::utf8::encode_utf8_decode_utf8(x);
    vstd::utf8::encode_utf8_decode_utf8(y);
    law_dec(a);
    law_dec(b);
    if x == y {
        assert(dec(a).len() == dec(b).len());
        assert(x.subrange(head.len() as int, (head.len() + dec(a).len()) as int) =~= dec(a));
        assert(y.subrange(head.len() as int, (head.len() + dec(b).len()) as int) =~= dec(b));
    }
}

} // verus!
