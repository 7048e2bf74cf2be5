//! Text: numbers, byte lists, and joined strings.

use vstd::prelude::*;
use vstd::utf8::{decode_utf8, encode_utf8, encode_utf8_decode_utf8, valid_utf8};

verus! {

/// The character of one decimal digit.
pub open spec fn digit(d: nat) -> char {
    if d == 0 {
        '0'
    } else if d == 1 {
        '1'
    } else if d == 2 {
        '2'
    } else if d == 3 {
        '3'
    } else if d == 4 {
        '4'
    } else if d == 5 {
        '5'
    } else if d == 6 {
        '6'
    } else if d == 7 {
        '7'
    } else if d == 8 {
        '8'
    } else {
        '9'
    }
}

/// `n` in decimal, without leading zeros.
pub open spec fn decimal_text(n: nat) -> Seq<char>
    decreases n,
{
    if n < 10 {
        seq![digit(n)]
    } else {
        decimal_text(n / 10).push(digit(n % 10))
    }
}

/// `text` with zeros before it up to `width` characters.
pub open spec fn zero_padded(text: Seq<char>, width: nat) -> Seq<char> {
    if text.len() >= width {
        text
    } else {
        Seq::new((width - text.len()) as nat, |i: int| '0') + text
    }
}

/// `text` with spaces before it up to `width` characters.
pub open spec fn right_aligned(text: Seq<char>, width: nat) -> Seq<char> {
    if text.len() >= width {
        text
    } else {
        Seq::new((width - text.len()) as nat, |i: int| ' ') + text
    }
}

/// The decimal bytes of `s`, each after the first with a comma before it.
pub open spec fn byte_list_items(s: Seq<u8>) -> Seq<char>
    decreases s.len(),
{
    if s.len() == 0 {
        Seq::empty()
    } else if s.len() == 1 {
        decimal_text(s[0] as nat)
    } else {
        byte_list_items(s.drop_last()) + ", "@ + decimal_text(s.last() as nat)
    }
}

/// The bytes of `s` as a bracketed decimal list.
pub open spec fn byte_list_text(s: Seq<u8>) -> Seq<char> {
    "["@ + byte_list_items(s) + "]"@
}

/// One decimal digit.
fn digit_str(d: u64) -> (r: &'static str)
    requires
        d < 10,
    ensures
        r@ == seq![digit(d as nat)],
{
    proof {
        reveal_strlit("0");
        reveal_strlit("1");
        reveal_strlit("2");
        reveal_strlit("3");
        reveal_strlit("4");
        reveal_strlit("5");
        reveal_strlit("6");
        reveal_strlit("7");
        reveal_strlit("8");
        reveal_strlit("9");
    }
    let r: &'static str = if d == 0 {
        "0"
    } else if d == 1 {
        "1"
    } else if d == 2 {
        "2"
    } else if d == 3 {
        "3"
    } else if d == 4 {
        "4"
    } else if d == 5 {
        "5"
    } else if d == 6 {
        "6"
    } else if d == 7 {
        "7"
    } else if d == 8 {
        "8"
    } else {
        "9"
    };
    assert(r@ =~= seq![digit(d as nat)]);
    r
}

/// `n` in decimal.
pub fn decimal(n: u64) -> (r: String)
    ensures
        r@ == decimal_text(n as nat),
    decreases n,
{
    if n < 10 {
        digit_str(n).to_owned()
    } else {
        let mut s: String = decimal(n / 10);
        s.append(digit_str(n % 10));
        assert(s@ =~= decimal_text((n / 10) as nat).push(digit((n % 10) as nat)));
        s
    }
}

/// `text` after as many copies of `pad` as fill `width` characters.
fn padded(text: &str, pad: &str, width: usize) -> (r: String)
    requires
        pad@.len() == 1,
    ensures
        r@ == if text@.len() >= width {
            text@
        } else {
            Seq::new((width - text@.len()) as nat, |i: int| pad@[0]) + text@
        },
{
    let mut out: String = String::new();
    let have: usize = text.unicode_len();
    let mut i: usize = have;
    while i < width
        invariant
            pad@.len() == 1,
            have == text@.len(),
            have <= i,
            i <= width || i == have,
            out@ =~= Seq::new((i - have) as nat, |i: int| pad@[0]),
        decreases width - i,
    {
        out.append(pad);
        i += 1;
    }
    out.append(text);
    assert(have >= width ==> out@ =~= text@);
    out
}

/// `n` in decimal, with zeros before it up to `width` characters.
pub fn zero_pad(n: u64, width: usize) -> (r: String)
    ensures
        r@ == zero_padded(decimal_text(n as nat), width as nat),
{
    proof {
        reveal_strlit("0");
    }
    let r: String = padded(decimal(n).as_str(), "0", width);
    assert(r@ =~= zero_padded(decimal_text(n as nat), width as nat));
    r
}

/// `text` with spaces before it up to `width` characters.
pub fn align_right(text: &str, width: usize) -> (r: String)
    ensures
        r@ == right_aligned(text@, width as nat),
{
    proof {
        reveal_strlit(" ");
    }
    let r: String = padded(text, " ", width);
    assert(r@ =~= right_aligned(text@, width as nat));
    r
}

/// Whether `a` and `b` read the same.
pub fn same_text(a: &str, b: &str) -> (r: bool)
    ensures
        r == (a@ == b@),
{
    let n: usize = a.unicode_len();
    if n != b.unicode_len() {
        return false;
    }
    let mut i: usize = 0;
    while i < n
        invariant
            i <= n,
            n == a@.len(),
            n == b@.len(),
            forall|j: int| 0 <= j < i ==> a@[j] == b@[j],
        decreases n - i,
    {
        if a.get_char(i) != b.get_char(i) {
            return false;
        }
        i += 1;
    }
    assert(a@ =~= b@);
    true
}

/// `a` followed by `b`.
pub fn join2(a: &str, b: &str) -> (r: String)
    ensures
        r@ == a@ + b@,
{
    let mut s: String = a.to_owned();
    s.append(b);
    s
}

/// `a`, `b` and `c` in turn.
pub fn join3(a: &str, b: &str, c: &str) -> (r: String)
    ensures
        r@ == a@ + b@ + c@,
{
    let mut s: String = a.to_owned();
    s.append(b);
    s.append(c);
    s
}

/// `a` to `e` in turn.
pub fn join5(a: &str, b: &str, c: &str, d: &str, e: &str) -> (r: String)
    ensures
        r@ == a@ + b@ + c@ + d@ + e@,
{
    let mut s: String = a.to_owned();
    s.append(b);
    s.append(c);
    s.append(d);
    s.append(e);
    s
}

/// The bytes of `s` as a bracketed decimal list.
pub fn byte_list(s: &[u8]) -> (r: String)
    ensures
        r@ == byte_list_text(s@),
{
    let mut out: String = "[".to_owned();
    let mut i: usize = 0;
    assert(s@.take(0) =~= Seq::<u8>::empty());
    assert(out@ =~= "["@ + byte_list_items(s@.take(0)));
    while i < s.len()
        invariant
            i <= s.len(),
            out@ == "["@ + byte_list_items(s@.take(i as int)),
        decreases s.len() - i,
    {
        if i > 0 {
            out.append(", ");
        }
        out.append(decimal(s[i] as u64).as_str());
        proof {
            let t = s@.take(i + 1);
            assert(t.drop_last() =~= s@.take(i as int));
            assert(i == 0 ==> byte_list_items(s@.take(0)) =~= Seq::<char>::empty());
            assert(out@ =~= "["@ + byte_list_items(t));
        }
        i += 1;
    }
    out.append("]");
    assert(s@.take(s@.len() as int) =~= s@);
    out
}

/// Whether `text` starts with `head`.
pub fn starts_with(text: &str, head: &str) -> (r: bool)
    ensures
        r == head@.is_prefix_of(text@),
{
    let n: usize = head.unicode_len();
    if n > text.unicode_len() {
        return false;
    }
    let mut i: usize = 0;
    while i < n
        invariant
            i <= n,
            n == head@.len(),
            n <= text@.len(),
            forall|j: int| 0 <= j < i ==> head@[j] == #[trigger] text@[j],
        decreases n - i,
    {
        if head.get_char(i) != text.get_char(i) {
            proof {
                if head@.is_prefix_of(text@) {
                    assert(head@ =~= text@.subrange(0, head@.len() as int));
                    assert(text@.subrange(0, head@.len() as int)[i as int] == text@[i as int]);
                }
            }
            return false;
        }
        i += 1;
    }
    assert(head@ =~= text@.subrange(0, n as int));
    true
}

/// [`String::from_utf8`]: the text that bytes encode, when they are valid
/// UTF-8, and nothing otherwise.
#[verifier::external_body]
pub(crate) fn utf8_text(bytes: Vec<u8>) -> (r: Option<String>)
    ensures
        r is Some <==> valid_utf8(bytes@),
        r matches Some(text) ==> text@ == decode_utf8(bytes@),
{
    String::from_utf8(bytes).ok()
}

/// What the `Debug` format of std writes for a string that holds `text`: the
/// text in double quotes, with its quotes, backslashes and unprintable
/// characters escaped.
pub uninterp spec fn quoted_text(text: Seq<char>) -> Seq<char>;

/// The text as the `Debug` format of std writes it. Trusted: that the outcome
/// depends on the text alone. Which characters are escaped, and how, is left
/// unsaid: it goes by std's table of printable characters.
#[verifier::external_body]
pub(crate) fn quoted(text: &str) -> (r: String)
    ensures
        r@ == quoted_text(text@),
{
    format!("{:?}", text)
}

/// The characters of printable bytes.
pub open spec fn ascii_text(s: Seq<u8>) -> Seq<char> {
    Seq::new(s.len(), |i: int| s[i] as char)
}

/// Every byte is a printable ASCII character or a space.
pub open spec fn is_printable(s: Seq<u8>) -> bool {
    forall|i: int| 0 <= i < s.len() ==> 0x20 <= (#[trigger] s[i]) <= 0x7e
}

/// One hexadecimal digit.
pub open spec fn hex_digit(d: nat) -> char {
    if d < 10 {
        digit(d)
    } else if d == 10 {
        'a'
    } else if d == 11 {
        'b'
    } else if d == 12 {
        'c'
    } else if d == 13 {
        'd'
    } else if d == 14 {
        'e'
    } else {
        'f'
    }
}

/// Two hexadecimal digits for every byte.
pub open spec fn hex_text(s: Seq<u8>) -> Seq<char>
    decreases s.len(),
{
    if s.len() == 0 {
        Seq::empty()
    } else {
        hex_text(s.drop_last()).push(hex_digit((s.last() / 16) as nat)).push(
            hex_digit((s.last() % 16) as nat),
        )
    }
}

fn hex_str(d: u64) -> (r: &'static str)
    requires
        d < 16,
    ensures
        r@ == seq![hex_digit(d as nat)],
{
    if d < 10 {
        return digit_str(d);
    }
    proof {
        reveal_strlit("a");
        reveal_strlit("b");
        reveal_strlit("c");
        reveal_strlit("d");
        reveal_strlit("e");
        reveal_strlit("f");
    }
    let r: &'static str = if d == 10 {
        "a"
    } else if d == 11 {
        "b"
    } else if d == 12 {
        "c"
    } else if d == 13 {
        "d"
    } else if d == 14 {
        "e"
    } else {
        "f"
    };
    assert(r@ =~= seq![hex_digit(d as nat)]);
    r
}

/// The bytes of `s` in hexadecimal.
pub fn hex(s: &[u8]) -> (r: String)
    ensures
        r@ == hex_text(s@),
{
    let mut out: String = "".to_owned();
    let mut i: usize = 0;
    proof {
        reveal_strlit("");
        assert(s@.take(0) =~= Seq::<u8>::empty());
        assert(out@ =~= hex_text(s@.take(0)));
    }
    while i < s.len()
        invariant
            i <= s@.len(),
            out@ == hex_text(s@.take(i as int)),
        decreases s@.len() - i,
    {
        out.append(hex_str((s[i] / 16) as u64));
        out.append(hex_str((s[i] % 16) as u64));
        proof {
            let t = s@.take(i + 1);
            assert(t.drop_last() =~= s@.take(i as int));
            assert(t.last() == s@[i as int]);
            assert(out@ =~= hex_text(t));
        }
        i += 1;
    }
    assert(s@.take(i as int) =~= s@);
    out
}

/// Whether every byte is a printable ASCII character or a space.
pub fn printable(s: &[u8]) -> (r: bool)
    ensures
        r == is_printable(s@),
{
    let mut i: usize = 0;
    while i < s.len()
        invariant
            i <= s@.len(),
            forall|j: int| 0 <= j < i ==> 0x20 <= (#[trigger] s@[j]) <= 0x7e,
        decreases s@.len() - i,
    {
        if s[i] < 0x20 || s[i] > 0x7e {
            assert(!(0x20 <= s@[i as int] <= 0x7e));
            return false;
        }
        i += 1;
    }
    true
}

/// Printable bytes as text.
pub fn printed(s: &[u8]) -> (r: String)
    requires
        is_printable(s@),
    ensures
        r@ == ascii_text(s@),
{
    let ghost chars = ascii_text(s@);
    proof {
        assert forall|i: int| 0 <= i < chars.len() implies '\0' <= #[trigger] chars[i]
            <= '\u{7f}' by {
            assert(0x20 <= s@[i] <= 0x7e);
        }
        vstd::utf8::is_ascii_chars_encode_utf8(chars);
        assert(encode_utf8(chars) =~= s@) by {
            assert forall|i: int| 0 <= i < chars.len() implies encode_utf8(chars)[i] == s@[i] by {
                assert(chars[i] as u8 == encode_utf8(chars)[i]);
                assert(0x20 <= s@[i] <= 0x7e);
            }
        }
        vstd::utf8::encode_utf8_valid_utf8(chars);
        encode_utf8_decode_utf8(chars);
    }
    match utf8_text(crate::bytes::copy(s)) {
        Some(text) => text,
        None => "".to_owned(),
    }
}

// ── numbers in text ─────────────────────────────────────────────────────

/// The number a run of digits writes.
pub open spec fn number_of(digits: Seq<char>) -> nat
    decreases digits.len(),
{
    if digits.len() == 0 {
        0
    } else {
        number_of(digits.drop_last()) * 10 + (digits.last() as nat - '0' as nat) as nat
    }
}

/// Every character is a decimal digit.
pub open spec fn all_digits(text: Seq<char>) -> bool {
    forall|i: int| 0 <= i < text.len() ==> '0' <= (#[trigger] text[i]) <= '9'
}

/// The digits of a written number, a leading plus sign aside.
pub open spec fn unsigned_part(text: Seq<char>) -> Seq<char> {
    if text.len() > 1 && text[0] == '+' {
        text.skip(1)
    } else {
        text
    }
}

/// The number `text` writes, where it writes one that `usize` can hold.
pub open spec fn count_in(text: Seq<char>) -> Option<usize> {
    let digits = unsigned_part(text);
    if digits.len() > 0 && all_digits(digits) && number_of(digits) <= usize::MAX {
        Some(number_of(digits) as usize)
    } else {
        None
    }
}

proof fn lemma_number_grows(digits: Seq<char>, n: int)
    requires
        0 <= n <= digits.len(),
    ensures
        number_of(digits.take(n)) <= number_of(digits),
    decreases digits.len(),
{
    if n < digits.len() {
        lemma_number_grows(digits.drop_last(), n);
        assert(digits.drop_last().take(n) =~= digits.take(n));
    } else {
        assert(digits.take(n) =~= digits);
    }
}

/// The number that `text` from character `from` on writes, where it writes
/// one that `usize` can hold.
pub fn parse_count(text: &str, from: usize) -> (r: Option<usize>)
    requires
        from <= text@.len(),
    ensures
        r == count_in(text@.skip(from as int)),
{
    let len: usize = text.unicode_len();
    let ghost tail = text@.skip(from as int);
    let ghost digits = unsigned_part(tail);
    let start: usize = if len - from > 1 && text.get_char(from) == '+' {
        from + 1
    } else {
        from
    };
    proof {
        assert(digits =~= text@.skip(start as int));
    }
    if start == len {
        return None;
    }
    let mut n: usize = 0;
    let mut i: usize = start;
    assert(digits.take(0) =~= Seq::<char>::empty());
    while i < len
        invariant
            len == text@.len(),
            start < len,
            start <= i <= len,
            digits == text@.skip(start as int),
            tail == text@.skip(from as int),
            digits == unsigned_part(tail),
            n == number_of(digits.take(i - start)),
            forall|j: int| 0 <= j < i - start ==> '0' <= (#[trigger] digits[j]) <= '9',
        decreases len - i,
    {
        let c: char = text.get_char(i);
        let ghost at = i - start;
        assert(c == digits[at]);
        if c < '0' || c > '9' {
            assert(!('0' <= digits[at] <= '9'));
            return None;
        }
        let d: usize = (c as u32 - '0' as u32) as usize;
        proof {
            assert(digits.take(at + 1).drop_last() =~= digits.take(at));
            assert(digits.take(at + 1).last() == c);
            lemma_number_grows(digits, at + 1);
        }
        match n.checked_mul(10) {
            None => {
                return None;
            },
            Some(tens) => match tens.checked_add(d) {
                None => {
                    return None;
                },
                Some(sum) => {
                    n = sum;
                },
            },
        }
        i += 1;
    }
    assert(digits.take(i - start) =~= digits);
    Some(n)
}

} // verus!
