//! Reading a response and finding the value of its `Content-Length`
//! header: the first line that holds `Content-Length: `, the text after its
//! first `:` up to the next one, trimmed of white space and read as an
//! `i32`.
use vstd::prelude::*;
use vstd::string::StringSliceAdditionalSpecFns;
use vstd::utf8::{decode_utf8, valid_utf8};
use vstd::arithmetic::power::pow;
use crate::text::{decimal, digit_char, digits, lemma_decimal_sign, lemma_digit_char, lemma_digits_are_digits};

verus! {

/// The characters of `s`, in order.
pub fn chars_of(s: &str) -> (v: Vec<char>)
    ensures
        v@ == s@,
{
    let mut v: Vec<char> = Vec::new();
    broadcast use vstd::string::axiom_spec_iter;

    for ch in it: s.chars()
        invariant
            it.seq() == s@,
            v@ == it.seq().take(it.index()),
    {
        v.push(ch);
    }
    v
}

/// The text of the line from `i` to `e`: a `\r` before the `\n` that ends
/// it is not part of it.
pub open spec fn line_text(s: Seq<char>, i: int, e: int) -> Seq<char> {
    if e < s.len() && e > i && s[e - 1] == '\r' {
        s.subrange(i, e - 1)
    } else {
        s.subrange(i, e)
    }
}

/// The lines of `s` from position `i` on, as `str::lines` gives them: split
/// at each `\n`, a `\r` before it dropped, no empty line after a final
/// `\n`.
pub open spec fn lines_from(s: Seq<char>, i: int) -> Seq<Seq<char>>
    decreases s.len() + 1 - i,
{
    if i < 0 || i >= s.len() {
        Seq::empty()
    } else {
        proof {
            lemma_find_from(s, '\n', i);
        }
        seq![line_text(s, i, find_from(s, '\n', i))] + lines_from(s, find_from(s, '\n', i) + 1)
    }
}

/// Where `c` is first found from `i` on: at or after `i`, within the text,
/// at a `c` unless it is the end, with no `c` before.
pub proof fn lemma_find_from(s: Seq<char>, c: char, i: int)
    requires
        0 <= i <= s.len(),
    ensures
        i <= find_from(s, c, i) <= s.len(),
        find_from(s, c, i) < s.len() ==> s[find_from(s, c, i)] == c,
        forall|k: int| i <= k < find_from(s, c, i) ==> s[k] != c,
    decreases s.len() - i,
{
    if i < s.len() && s[i] != c {
        lemma_find_from(s, c, i + 1);
    }
}

/// The text `Content-Length: `.
pub open spec fn header_name() -> Seq<char> {
    seq!['C', 'o', 'n', 't', 'e', 'n', 't', '-', 'L', 'e', 'n', 'g', 't', 'h', ':', ' ']
}

/// Whether `pat` occurs in `line` at position `i`.
pub open spec fn occurs_at(line: Seq<char>, pat: Seq<char>, i: int) -> bool {
    0 <= i && i + pat.len() <= line.len() && line.subrange(i, i + pat.len()) == pat
}

/// Whether the line holds `Content-Length: `.
pub open spec fn has_header(line: Seq<char>) -> bool {
    exists|i: int| occurs_at(line, header_name(), i)
}

/// The first of `ls` that holds `Content-Length: `, if any.
pub open spec fn first_header_line(ls: Seq<Seq<char>>) -> Option<Seq<char>>
    decreases ls.len(),
{
    if ls.len() == 0 {
        None
    } else if has_header(ls[0]) {
        Some(ls[0])
    } else {
        first_header_line(ls.drop_first())
    }
}

/// Position of the first `c` in `s` at or after `i`, or `s.len()`.
pub open spec fn find_from(s: Seq<char>, c: char, i: int) -> int
    decreases s.len() - i,
{
    if i >= s.len() {
        s.len() as int
    } else if s[i] == c {
        i
    } else {
        find_from(s, c, i + 1)
    }
}

/// The second of the pieces that `:` splits `line` into; the line holds a
/// `:`, so it exists.
pub open spec fn second_field(line: Seq<char>) -> Seq<char> {
    let first = find_from(line, ':', 0);
    line.subrange(first + 1, find_from(line, ':', first + 1))
}

/// White space as `char::is_whitespace` defines it (Unicode `White_Space`).
pub open spec fn is_white(c: char) -> bool {
    ||| '\t' <= c <= '\r'
    ||| c == ' '
    ||| c == '\u{85}'
    ||| c == '\u{a0}'
    ||| c == '\u{1680}'
    ||| '\u{2000}' <= c <= '\u{200a}'
    ||| c == '\u{2028}'
    ||| c == '\u{2029}'
    ||| c == '\u{202f}'
    ||| c == '\u{205f}'
    ||| c == '\u{3000}'
}

/// First position at or after `i` that is not white space, or `s.len()`.
pub open spec fn skip_white(s: Seq<char>, i: int) -> int
    decreases s.len() - i,
{
    if i >= s.len() {
        s.len() as int
    } else if is_white(s[i]) {
        skip_white(s, i + 1)
    } else {
        i
    }
}

/// One past the last position before `j`, and at or after `lo`, that is
/// not white space, or `lo`.
pub open spec fn skip_white_back(s: Seq<char>, lo: int, j: int) -> int
    decreases j - lo,
{
    if j <= lo {
        lo
    } else if is_white(s[j - 1]) {
        skip_white_back(s, lo, j - 1)
    } else {
        j
    }
}

/// `s` without white space at either end.
pub open spec fn trim(s: Seq<char>) -> Seq<char> {
    let a = skip_white(s, 0);
    s.subrange(a, skip_white_back(s, a, s.len() as int))
}

/// Whether `c` is an ASCII digit.
pub open spec fn is_digit(c: char) -> bool {
    '0' <= c <= '9'
}

/// The value of a string of decimal digits.
pub open spec fn digits_value(d: Seq<char>) -> int
    decreases d.len(),
{
    if d.len() == 0 {
        0
    } else {
        digits_value(d.drop_last()) * 10 + (d.last() as int - '0' as int)
    }
}

/// The length of the sign in front of a number: one for `+` or `-`.
pub open spec fn sign_len(s: Seq<char>) -> int {
    if s.len() > 0 && (s[0] == '-' || s[0] == '+') {
        1
    } else {
        0
    }
}

/// Whether every character of `d` is an ASCII digit.
pub open spec fn all_digits(d: Seq<char>) -> bool {
    forall|i: int| 0 <= i < d.len() ==> is_digit(#[trigger] d[i])
}

/// The value of `s` as a sign followed by digits.
pub open spec fn signed_value(s: Seq<char>) -> int {
    if s.len() > 0 && s[0] == '-' {
        -digits_value(s.skip(1))
    } else {
        digits_value(s.skip(sign_len(s)))
    }
}

/// `s` read as an `i32` as `str::parse` reads it: an optional `+` or `-`,
/// then one or more ASCII digits, with a value in range.
pub open spec fn parse_i32(s: Seq<char>) -> Option<int> {
    let d = s.skip(sign_len(s));
    if d.len() == 0 || !all_digits(d) {
        None
    } else if i32::MIN <= signed_value(s) <= i32::MAX {
        Some(signed_value(s))
    } else {
        None
    }
}

/// The text of the `Content-Length` value in the response `s`, untrimmed,
/// if a line holds `Content-Length: `.
pub open spec fn length_field(s: Seq<char>) -> Option<Seq<char>> {
    match first_header_line(lines_from(s, 0)) {
        Some(line) => Some(second_field(line)),
        None => None,
    }
}

/// The `Content-Length` of the response `s`: `None` when no line holds the
/// header, else the header's value read as an `i32` (`None` inside when it
/// does not read as one).
pub open spec fn content_length(s: Seq<char>) -> Option<Option<int>> {
    match length_field(s) {
        Some(f) => Some(parse_i32(trim(f))),
        None => None,
    }
}

/// Position of the first `c` in `s` at or after `i`, or `s.len()`.
fn find_char(s: &Vec<char>, c: char, i: usize) -> (r: usize)
    requires
        i <= s@.len(),
    ensures
        r == find_from(s@, c, i as int),
{
    proof {
        lemma_find_from(s@, c, i as int);
    }
    let mut k = i;
    while k < s.len()
        invariant
            i <= k <= s@.len(),
            find_from(s@, c, i as int) == find_from(s@, c, k as int),
        decreases s.len() - k,
    {
        if s[k] == c {
            return k;
        }
        k += 1;
    }
    k
}

/// The characters of `s` from `a` to `b`.
fn sub_chars(s: &Vec<char>, a: usize, b: usize) -> (r: Vec<char>)
    requires
        a <= b <= s@.len(),
    ensures
        r@ == s@.subrange(a as int, b as int),
{
    let mut r: Vec<char> = Vec::new();
    let mut k = a;
    while k < b
        invariant
            a <= k <= b <= s@.len(),
            r@ == s@.subrange(a as int, k as int),
        decreases b - k,
    {
        r.push(s[k]);
        k += 1;
        assert(r@ =~= s@.subrange(a as int, k as int));
    }
    r
}

/// Whether the line holds `Content-Length: `.
fn holds_header(line: &Vec<char>) -> (r: bool)
    ensures
        r == has_header(line@),
{
    let pat = chars_of("Content-Length: ");
    proof {
        reveal_strlit("Content-Length: ");
        assert(pat@ =~= header_name());
    }
    if line.len() < pat.len() {
        assert forall|i: int| !occurs_at(line@, header_name(), i) by {}
        return false;
    }
    let last = line.len() - pat.len();
    let mut i: usize = 0;
    while i <= last
        invariant
            last == line@.len() - pat@.len(),
            pat@ == header_name(),
            pat@.len() <= line@.len(),
            i <= line@.len() - pat@.len() + 1,
            forall|j: int| 0 <= j < i ==> !occurs_at(line@, header_name(), j),
        decreases line.len() - i,
    {
        let mut k: usize = 0;
        let mut same = true;
        while k < pat.len()
            invariant
                pat@ == header_name(),
                i + pat@.len() <= line@.len(),
                k <= pat@.len(),
                same == (forall|t: int| 0 <= t < k ==> line@[i + t] == pat@[t]),
            decreases pat.len() - k,
        {
            assert(i + k < line.len());
            let idx: usize = i + k;
            if line[idx] != pat[k] {
                same = false;
            }
            k += 1;
        }
        if same {
            assert(line@.subrange(i as int, i + pat@.len()) =~= pat@);
            assert(occurs_at(line@, header_name(), i as int));
            return true;
        }
        assert(!occurs_at(line@, header_name(), i as int)) by {
            if line@.subrange(i as int, i + pat@.len()) == pat@ {
                assert forall|t: int| 0 <= t < pat@.len() implies line@[i + t] == pat@[t] by {
                    assert(line@.subrange(i as int, i + pat@.len())[t] == line@[i + t]);
                }
            }
        }
        i += 1;
    }
    assert forall|j: int| !occurs_at(line@, header_name(), j) by {
        if 0 <= j && j + header_name().len() <= line@.len() {
            assert(j < i);
        }
    }
    false
}

/// Whether `c` is white space (Unicode `White_Space`).
pub fn is_white_char(c: char) -> (r: bool)
    ensures
        r == is_white(c),
{
    ('\t' <= c && c <= '\r') || c == ' ' || c == '\u{85}' || c == '\u{a0}' || c == '\u{1680}' || (
    '\u{2000}' <= c && c <= '\u{200a}') || c == '\u{2028}' || c == '\u{2029}' || c == '\u{202f}'
        || c == '\u{205f}' || c == '\u{3000}'
}

proof fn lemma_skip_white_back(s: Seq<char>, lo: int, j: int)
    requires
        lo <= j,
    ensures
        lo <= skip_white_back(s, lo, j) <= j,
    decreases j - lo,
{
    if j > lo && is_white(s[j - 1]) {
        lemma_skip_white_back(s, lo, j - 1);
    }
}

/// `s` without white space at either end.
pub fn trim_chars(s: &Vec<char>) -> (r: Vec<char>)
    ensures
        r@ == trim(s@),
{
    let mut a: usize = 0;
    while a < s.len() && is_white_char(s[a])
        invariant
            a <= s@.len(),
            skip_white(s@, 0) == skip_white(s@, a as int),
        decreases s.len() - a,
    {
        a += 1;
    }
    let mut b: usize = s.len();
    proof {
        lemma_skip_white_back(s@, a as int, s@.len() as int);
    }
    while b > a && is_white_char(s[b - 1])
        invariant
            a <= b <= s@.len(),
            skip_white_back(s@, a as int, s@.len() as int) == skip_white_back(s@, a as int, b as int),
        decreases b - a,
    {
        b -= 1;
    }
    sub_chars(s, a, b)
}

/// Digit values only grow as digits are added.
proof fn lemma_digits_grow(d: Seq<char>, k: int)
    requires
        0 <= k <= d.len(),
        forall|i: int| 0 <= i < d.len() ==> is_digit(#[trigger] d[i]),
    ensures
        0 <= digits_value(d.take(k)) <= digits_value(d),
    decreases d.len() - k,
{
    if k < d.len() {
        lemma_digits_grow(d, k + 1);
        assert(d.take(k + 1).drop_last() =~= d.take(k));
        assert(d.take(k + 1).last() == d[k]);
    } else {
        assert(d.take(k) =~= d);
    }
    lemma_digits_nonneg(d.take(k));
}

proof fn lemma_digits_nonneg(d: Seq<char>)
    requires
        forall|i: int| 0 <= i < d.len() ==> is_digit(#[trigger] d[i]),
    ensures
        digits_value(d) >= 0,
    decreases d.len(),
{
    if d.len() > 0 {
        lemma_digits_nonneg(d.drop_last());
        assert(is_digit(d[d.len() - 1]));
    }
}

/// `s` read as an `i32`, as `str::parse` reads it.
pub fn parse_i32_chars(s: &Vec<char>) -> (r: Option<i32>)
    ensures
        match r {
            Some(v) => parse_i32(s@) == Some(v as int),
            None => parse_i32(s@) is None,
        },
{
    let n = s.len();
    if n == 0 {
        return None;
    }
    let neg = s[0] == '-';
    let first: usize = if s[0] == '-' || s[0] == '+' { 1 } else { 0 };
    let ghost d = s@.skip(sign_len(s@));
    assert(first == sign_len(s@));
    if first == n {
        return None;
    }
    let mut acc: i64 = 0;
    let mut i: usize = first;
    while i < n
        invariant
            d == s@.skip(first as int),
            first == sign_len(s@),
            n > 0,
            neg == (s@[0] == '-'),
            first <= i <= n,
            n == s@.len(),
            0 <= acc <= 2147483648,
            acc == digits_value(d.take(i - first)),
            forall|t: int| 0 <= t < i - first ==> is_digit(#[trigger] d[t]),
        decreases n - i,
    {
        let c = s[i];
        if !('0' <= c && c <= '9') {
            assert(!is_digit(d[i - first]));
            assert(!all_digits(d));
            return None;
        }
        let dv = (c as u32 - '0' as u32) as i64;
        proof {
            let k = (i - first) as int;
            assert(d.take(k + 1).drop_last() =~= d.take(k));
            assert(d.take(k + 1).last() == c);
        }
        acc = acc * 10 + dv;
        if acc > 2147483648 {
            proof {
                let k = (i - first + 1) as int;
                if all_digits(d) {
                    lemma_digits_grow(d, k);
                    assert(digits_value(d) > 2147483648);
                }
            }
            return None;
        }
        i += 1;
    }
    assert(d.take(n - first) =~= d);
    assert(all_digits(d));
    let v: i64 = if neg { -acc } else { acc };
    assert(v == signed_value(s@));
    if v < -2147483648 || v > 2147483647 {
        None
    } else {
        Some(v as i32)
    }
}

/// The second of the pieces that `:` splits a header line into.
fn second_field_chars(line: &Vec<char>) -> (r: Vec<char>)
    requires
        has_header(line@),
    ensures
        r@ == second_field(line@),
{
    proof {
        let i = choose|i: int| occurs_at(line@, header_name(), i);
        assert(line@.subrange(i, i + header_name().len())[14] == ':');
        assert(line@[i + 14] == ':');
        lemma_find_from(line@, ':', 0);
    }
    let first = find_char(line, ':', 0);
    assert(first < line.len());
    proof {
        lemma_find_from(line@, ':', first + 1);
    }
    let second = find_char(line, ':', first + 1);
    sub_chars(line, first + 1, second)
}

/// The untrimmed `Content-Length` value of the response `s`, if a line
/// holds the header.
fn length_field_of(s: &Vec<char>) -> (r: Option<Vec<char>>)
    ensures
        match r {
            Some(f) => length_field(s@) == Some(f@),
            None => length_field(s@) is None,
        },
{
    let mut i: usize = 0;
    while i < s.len()
        invariant
            i <= s@.len(),
            first_header_line(lines_from(s@, 0)) == first_header_line(lines_from(s@, i as int)),
        decreases s.len() - i,
    {
        proof {
            lemma_find_from(s@, '\n', i as int);
        }
        let e = find_char(s, '\n', i);
        let stop = if e < s.len() && e > i && s[e - 1] == '\r' { e - 1 } else { e };
        let line = sub_chars(s, i, stop);
        assert(line@ == line_text(s@, i as int, e as int));
        assert(lines_from(s@, i as int)[0] == line@);
        if holds_header(&line) {
            return Some(second_field_chars(&line));
        }
        assert(lines_from(s@, i as int).drop_first() =~= lines_from(s@, e + 1));
        assert(first_header_line(lines_from(s@, i as int)) == first_header_line(
            lines_from(s@, e + 1),
        ));
        if e == s.len() {
            assert(lines_from(s@, e + 1) =~= Seq::<Seq<char>>::empty());
            return None;
        }
        i = e + 1;
    }
    None
}

/// The `Content-Length` of a response: `None` when no line holds
/// `Content-Length: `; otherwise the header's value, trimmed and read as an
/// `i32`, or `None` inside when it does not read as one.
pub fn content_length_of(request_str: &str) -> (r: Option<Option<i32>>)
    ensures
        match r {
            None => content_length(request_str@) is None,
            Some(None) => content_length(request_str@) == Some(None::<int>),
            Some(Some(v)) => content_length(request_str@) == Some(Some(v as int)),
        },
{
    let chars = chars_of(request_str);
    match length_field_of(&chars) {
        None => None,
        Some(field) => {
            let trimmed = trim_chars(&field);
            Some(parse_i32_chars(&trimmed))
        },
    }
}

/// The `Content-Length` of a response whose header value, if it has one,
/// reads as an `i32`: `None` when no line holds `Content-Length: `.
pub fn parse_request(request_str: &str) -> (r: Option<i32>)
    requires
        content_length(request_str@) != Some(None::<int>),
    ensures
        match r {
            None => content_length(request_str@) is None,
            Some(v) => content_length(request_str@) == Some(Some(v as int)),
        },
{
    match content_length_of(request_str) {
        Some(Some(v)) => Some(v),
        _ => None,
    }
}

/// Size of the buffer each read of the response fills.
pub const BUFF_SIZE: usize = 128;

/// Decodes bytes as UTF-8 with `std::str::from_utf8`, which fails exactly
/// when the bytes are not valid UTF-8 and otherwise returns the text whose
/// UTF-8 encoding they are.
#[verifier::external_body]
fn utf8_text(bytes: &[u8]) -> (r: Option<&str>)
    ensures
        r is Some <==> valid_utf8(bytes@),
        r matches Some(t) ==> t.spec_bytes() == bytes@,
{
    std::str::from_utf8(bytes).ok()
}

/// One read of a response into the buffer `buff`: the whole buffer,
/// decoded as UTF-8, is added to the text received so far, and the result
/// says whether reading goes on, which it does when the read filled the
/// buffer.
pub fn receive_request(request: &mut Vec<char>, buff: &[u8], bits_read: usize) -> (more: bool)
    requires
        valid_utf8(buff@),
    ensures
        final(request)@ == old(request)@ + decode_utf8(buff@),
        more == (bits_read >= BUFF_SIZE),
{
    let text = utf8_text(buff);
    let t = text.unwrap();
    proof {
        vstd::utf8::encode_utf8_decode_utf8(t@);
    }
    let chars = chars_of(t);
    let mut k: usize = 0;
    let ghost before = request@;
    while k < chars.len()
        invariant
            k <= chars@.len(),
            request@ == before + chars@.take(k as int),
        decreases chars.len() - k,
    {
        request.push(chars[k]);
        k += 1;
        assert(request@ =~= before + chars@.take(k as int));
    }
    assert(chars@.take(chars@.len() as int) =~= chars@);
    bits_read >= BUFF_SIZE
}

/// Reading digits after other digits: the value of `d1 + d2` is that of
/// `d1` shifted left by the length of `d2`, plus that of `d2`.
pub proof fn lemma_digits_value_concat(d1: Seq<char>, d2: Seq<char>)
    ensures
        digits_value(d1 + d2) == digits_value(d1) * pow(10, d2.len()) + digits_value(d2),
    decreases d2.len(),
{
    if d2.len() == 0 {
        assert(d1 + d2 =~= d1);
        vstd::arithmetic::power::lemma_pow0(10);
    } else {
        let d2p = d2.drop_last();
        lemma_digits_value_concat(d1, d2p);
        assert((d1 + d2).drop_last() =~= d1 + d2p);
        assert((d1 + d2).last() == d2.last());
        vstd::arithmetic::power::lemma_pow_adds(10, d2p.len(), 1);
        vstd::arithmetic::power::lemma_pow1(10);
        let a = digits_value(d1);
        let p = pow(10, d2p.len());
        assert((a * p + digits_value(d2p)) * 10 == a * (p * 10) + digits_value(d2p) * 10) by (nonlinear_arith);
    }
}

/// Appending a digit multiplies the value read so far by ten and adds the
/// digit.
pub proof fn lemma_digits_value_push(d: Seq<char>, c: char)
    requires
        is_digit(c),
    ensures
        digits_value(d.push(c)) == 10 * digits_value(d) + (c as int - '0' as int),
{
    assert(d.push(c).drop_last() =~= d);
    assert(d.push(c).last() == c);
}

/// The decimal digits of `n` read back as `n`.
pub proof fn lemma_digits_read_back(n: nat)
    ensures
        all_digits(digits(n)),
        digits_value(digits(n)) == n,
    decreases n,
{
    lemma_digits_are_digits(n);
    if n < 10 {
        lemma_digit_char(n as int);
        assert(digits(n).drop_last() =~= Seq::<char>::empty());
        assert(digits_value(Seq::<char>::empty()) == 0);
        assert(digits(n).last() == digit_char(n as int));
    } else {
        lemma_digits_read_back(n / 10);
        lemma_digit_char((n % 10) as int);
        assert(digits(n).drop_last() =~= digits(n / 10));
        assert(digits(n).last() == digit_char((n % 10) as int));
        assert(digits_value(digits(n)) == digits_value(digits(n / 10)) * 10 + (n % 10));
        assert((n / 10) * 10 + n % 10 == n);
    }
    assert forall|i: int| 0 <= i < digits(n).len() implies is_digit(#[trigger] digits(n)[i]) by {}
}

/// Every integer written in decimal, as `Display` writes it, reads back as
/// itself: an optional minus sign, present exactly for negative values,
/// then one or more digits whose value is the magnitude.
pub proof fn lemma_decimal_reads_back(v: int)
    ensures
        decimal(v).skip(sign_len(decimal(v))).len() > 0,
        all_digits(decimal(v).skip(sign_len(decimal(v)))),
        signed_value(decimal(v)) == v,
        sign_len(decimal(v)) == 1 <==> v < 0,
{
    let s = decimal(v);
    lemma_decimal_sign(v);
    if v >= 0 {
        lemma_digits_read_back(v as nat);
        lemma_digits_are_digits(v as nat);
        assert(sign_len(s) == 0);
        assert(s.skip(0) =~= s);
    } else {
        let m = (-v) as nat;
        lemma_digits_read_back(m);
        lemma_digits_are_digits(m);
        assert(sign_len(s) == 1);
        assert(s.skip(1) =~= digits(m));
    }
}

/// Every `i32` written in decimal is read back as itself by
/// `str::parse::<i32>`.
pub proof fn lemma_parse_decimal(n: int)
    requires
        i32::MIN <= n <= i32::MAX,
    ensures
        parse_i32(decimal(n)) == Some(n),
{
    lemma_decimal_reads_back(n);
}

proof fn lemma_skip_white_shape(s: Seq<char>, i: int)
    requires
        0 <= i <= s.len(),
    ensures
        i <= skip_white(s, i) <= s.len(),
        forall|k: int| i <= k < skip_white(s, i) ==> is_white(#[trigger] s[k]),
        skip_white(s, i) < s.len() ==> !is_white(s[skip_white(s, i)]),
    decreases s.len() - i,
{
    if i < s.len() && is_white(s[i]) {
        lemma_skip_white_shape(s, i + 1);
    }
}

proof fn lemma_skip_white_back_shape(s: Seq<char>, lo: int, j: int)
    requires
        0 <= lo <= j <= s.len(),
    ensures
        lo <= skip_white_back(s, lo, j) <= j,
        forall|k: int| skip_white_back(s, lo, j) <= k < j ==> is_white(#[trigger] s[k]),
        skip_white_back(s, lo, j) > lo ==> !is_white(s[skip_white_back(s, lo, j) - 1]),
    decreases j - lo,
{
    if j > lo && is_white(s[j - 1]) {
        lemma_skip_white_back_shape(s, lo, j - 1);
    }
}

/// Trimming keeps a contiguous part of the text and drops only white space
/// around it: the kept part neither starts nor ends with white space, and
/// everything before and after it is white space.
pub proof fn lemma_trim_shape(s: Seq<char>)
    ensures
        exists|a: int, b: int|
            0 <= a <= b <= s.len() && trim(s) == s.subrange(a, b) && (forall|k: int|
                0 <= k < a ==> is_white(#[trigger] s[k])) && (forall|k: int|
                b <= k < s.len() ==> is_white(#[trigger] s[k])) && (a < b ==> !is_white(s[a])
                && !is_white(s[b - 1])),
{
    let a = skip_white(s, 0);
    lemma_skip_white_shape(s, 0);
    let b = skip_white_back(s, a, s.len() as int);
    lemma_skip_white_back_shape(s, a, s.len() as int);
    assert(trim(s) == s.subrange(a, b));
}

/// An optional sign before one or more digits: `+` changes nothing, `-`
/// negates, and the value is accepted exactly when it is within the range
/// of `i32`.
pub proof fn lemma_parse_signs(d: Seq<char>)
    requires
        d.len() > 0,
        all_digits(d),
    ensures
        parse_i32(d) == (if digits_value(d) <= i32::MAX {
            Some(digits_value(d))
        } else {
            None::<int>
        }),
        parse_i32(seq!['+'] + d) == parse_i32(d),
        parse_i32(seq!['-'] + d) == (if -digits_value(d) >= i32::MIN {
            Some(-digits_value(d))
        } else {
            None::<int>
        }),
{
    lemma_digits_value_nonneg(d);
    assert(is_digit(d[0]));
    assert(d.skip(0) =~= d);
    assert((seq!['+'] + d).skip(1) =~= d);
    assert((seq!['-'] + d).skip(1) =~= d);
}

/// Digits have a value of zero or more.
proof fn lemma_digits_value_nonneg(d: Seq<char>)
    requires
        all_digits(d),
    ensures
        digits_value(d) >= 0,
    decreases d.len(),
{
    if d.len() > 0 {
        assert(all_digits(d.drop_last())) by {
            assert forall|i: int| 0 <= i < d.drop_last().len() implies is_digit(#[trigger] d.drop_last()[i]) by {
                assert(d.drop_last()[i] == d[i]);
            }
        }
        lemma_digits_value_nonneg(d.drop_last());
        assert(is_digit(d[d.len() - 1]));
    }
}

} // verus!
