//! Text as sequences of characters: trimming, splitting, and the number
//! formats that headers and identifiers use.
use vstd::prelude::*;
use vstd::string::StringExecFns;
use vstd::utf8::encode_utf8;
use vstd::utf8::encode_utf8_decode_utf8;
use vstd::utf8::is_ascii_chars;
use vstd::utf8::encode_utf8_valid_utf8;
use vstd::utf8::is_ascii_chars_encode_utf8;
use vstd::utf8::length_of_first_scalar;
use vstd::utf8::pop_first_scalar;
use vstd::utf8::valid_utf8;

verus! {

/// `String::push` appends one character and leaves what was there unchanged.
pub assume_specification[ String::push ](s: &mut String, ch: char)
    ensures
        final(s)@ == old(s)@.push(ch),
;

/// The text that bytes decode to, with a replacement character wherever they
/// are malformed.
pub uninterp spec fn lossy_text(bytes: Seq<u8>) -> Seq<char>;

/// `String::from_utf8_lossy`: the text is a function of the bytes, and
/// well-formed UTF-8 comes back as it is.
#[verifier::external_body]
pub(crate) fn lossy(bytes: &[u8]) -> (out: String)
    ensures
        out@ == lossy_text(bytes@),
        valid_utf8(bytes@) ==> encode_utf8(out@) == bytes@,
{
    String::from_utf8_lossy(bytes).into_owned()
}

/// Unicode's `White_Space` property.
pub open spec fn is_white_space(c: char) -> bool {
    let n = c as u32;
    ||| 0x09 <= n <= 0x0d
    ||| n == 0x20
    ||| n == 0x85
    ||| n == 0xa0
    ||| n == 0x1680
    ||| 0x2000 <= n <= 0x200a
    ||| n == 0x2028
    ||| n == 0x2029
    ||| n == 0x202f
    ||| n == 0x205f
    ||| n == 0x3000
}

pub open spec fn trim_start(s: Seq<char>) -> Seq<char>
    decreases s.len(),
{
    if s.len() > 0 && is_white_space(s[0]) {
        trim_start(s.drop_first())
    } else {
        s
    }
}

pub open spec fn trim_end(s: Seq<char>) -> Seq<char>
    decreases s.len(),
{
    if s.len() > 0 && is_white_space(s.last()) {
        trim_end(s.drop_last())
    } else {
        s
    }
}

/// `s` without leading and trailing white space.
pub open spec fn trim(s: Seq<char>) -> Seq<char> {
    trim_end(trim_start(s))
}

/// The ASCII lower-case form of one character; others stand for themselves.
pub open spec fn lower(c: char) -> char {
    match c {
        'A' => 'a', 'B' => 'b', 'C' => 'c', 'D' => 'd', 'E' => 'e', 'F' => 'f', 'G' => 'g',
        'H' => 'h', 'I' => 'i', 'J' => 'j', 'K' => 'k', 'L' => 'l', 'M' => 'm', 'N' => 'n',
        'O' => 'o', 'P' => 'p', 'Q' => 'q', 'R' => 'r', 'S' => 's', 'T' => 't', 'U' => 'u',
        'V' => 'v', 'W' => 'w', 'X' => 'x', 'Y' => 'y', 'Z' => 'z',
        _ => c,
    }
}

/// Every character in its ASCII lower-case form.
pub open spec fn to_lower(s: Seq<char>) -> Seq<char> {
    s.map_values(|c: char| lower(c))
}

/// The place of the first `c` in `s`, or `s.len()` when there is none.
pub open spec fn first_of(s: Seq<char>, c: char) -> int
    decreases s.len(),
{
    if s.len() == 0 || s[0] == c {
        0
    } else {
        1 + first_of(s.drop_first(), c)
    }
}

/// The place of the last `c` in `s`, or `-1` when there is none.
pub open spec fn last_of(s: Seq<char>, c: char) -> int
    decreases s.len(),
{
    if s.len() == 0 {
        -1
    } else if s.last() == c {
        s.len() - 1
    } else {
        last_of(s.drop_last(), c)
    }
}

/// The fields of `s` between its separators: one more than there are `c`s.
pub open spec fn split(s: Seq<char>, c: char) -> Seq<Seq<char>>
    decreases s.len(),
{
    let at = first_of(s, c);
    if at < 0 || at >= s.len() {
        seq![s]
    } else {
        seq![s.take(at)] + split(s.skip(at + 1), c)
    }
}

pub open spec fn is_digit(c: char) -> bool {
    '0' <= c && c <= '9'
}

pub open spec fn is_hex(c: char) -> bool {
    is_digit(c) || ('a' <= c && c <= 'f') || ('A' <= c && c <= 'F')
}

/// What a run of decimal digits stands for.
pub open spec fn decimal_value(s: Seq<char>) -> nat
    decreases s.len(),
{
    if s.len() == 0 {
        0
    } else {
        (10 * decimal_value(s.drop_last()) + (s.last() as u32 - '0' as u32)) as nat
    }
}

/// The digits of a whole number: an optional plus sign, then digits only.
pub open spec fn unsigned_digits(s: Seq<char>) -> Seq<char> {
    if s.len() > 0 && s[0] == '+' {
        s.drop_first()
    } else {
        s
    }
}

/// The number `s` spells, if it spells one that is at most `max`.
pub open spec fn parse_unsigned(s: Seq<char>, max: nat) -> Option<nat> {
    let digits = unsigned_digits(s);
    if digits.len() > 0 && (forall|i: int| 0 <= i < digits.len() ==> is_digit(#[trigger] digits[i]))
        && decimal_value(digits) <= max {
        Some(decimal_value(digits))
    } else {
        None
    }
}

pub open spec fn digit_char(d: int) -> char {
    ('0' as u32 + d) as char
}

/// `n` in decimal, without leading zeros.
pub open spec fn decimal(n: nat) -> Seq<char>
    decreases n,
{
    if n < 10 {
        seq![digit_char(n as int)]
    } else {
        decimal(n / 10).push(digit_char((n % 10) as int))
    }
}

/// The lower-case hexadecimal digit for `d`.
pub open spec fn hex_char(d: int) -> char {
    if d < 10 {
        ('0' as u32 + d) as char
    } else {
        ('a' as u32 + (d - 10)) as char
    }
}

/// What one hexadecimal digit stands for.
pub open spec fn hex_digit(c: char) -> int {
    if is_digit(c) {
        c as u32 - '0' as u32
    } else if 'a' <= c && c <= 'f' {
        c as u32 - 'a' as u32 + 10
    } else {
        c as u32 - 'A' as u32 + 10
    }
}

/// Two lower-case hexadecimal digits per byte.
pub open spec fn hex_text(bytes: Seq<u8>) -> Seq<char>
    decreases bytes.len(),
{
    if bytes.len() == 0 {
        Seq::empty()
    } else {
        hex_text(bytes.drop_last()).push(hex_char(bytes.last() as int / 16)).push(
            hex_char(bytes.last() as int % 16),
        )
    }
}

/// `width` lower-case hexadecimal digits of `n`, most significant first.
pub open spec fn hex_fixed(n: nat, width: nat) -> Seq<char>
    decreases width,
{
    if width == 0 {
        Seq::empty()
    } else {
        hex_fixed(n / 16, (width - 1) as nat).push(hex_char((n % 16) as int))
    }
}

pub proof fn lemma_utf8_injective(a: Seq<char>, b: Seq<char>)
    requires
        encode_utf8(a) == encode_utf8(b),
    ensures
        a == b,
{
    encode_utf8_decode_utf8(a);
    encode_utf8_decode_utf8(b);
}

proof fn lemma_valid_below(bytes: Seq<u8>, i: int)
    requires
        valid_utf8(bytes),
        0 <= i < bytes.len(),
    ensures
        bytes[i] < 0xf8,
    decreases bytes.len(),
{
    let n = length_of_first_scalar(bytes);
    if i >= n {
        lemma_valid_below(pop_first_scalar(bytes), i - n);
    }
}

/// No byte of a text's encoding is `0xf8` or above.
pub proof fn lemma_utf8_below(s: Seq<char>)
    ensures
        forall|i: int| 0 <= i < encode_utf8(s).len() ==> (#[trigger] encode_utf8(s)[i]) < 0xf8,
{
    encode_utf8_valid_utf8(s);
    assert forall|i: int| 0 <= i < encode_utf8(s).len() implies (#[trigger] encode_utf8(s)[i]) < 0xf8 by {
        lemma_valid_below(encode_utf8(s), i);
    }
}

pub proof fn lemma_ascii_len(s: Seq<char>)
    requires
        is_ascii_chars(s),
    ensures
        encode_utf8(s).len() == s.len(),
{
    is_ascii_chars_encode_utf8(s);
}

/// The characters of `text`, in order.
pub fn chars_of(text: &str) -> (out: Vec<char>)
    ensures
        out@ == text@,
{
    let mut out: Vec<char> = Vec::new();
    for c in iter: text.chars()
        invariant
            out@ == text@.take(iter.index() as int),
            iter.seq() == text@,
    {
        assert(text@.take(iter.index() as int + 1) =~= text@.take(iter.index() as int).push(c));
        out.push(c);
    }
    assert(text@.take(text@.len() as int) =~= text@);
    out
}

/// The text that `chars` spell.
pub fn string_of(chars: &[char]) -> (out: String)
    ensures
        out@ == chars@,
{
    let mut out = String::new();
    let mut i: usize = 0;
    while i < chars.len()
        invariant
            i <= chars@.len(),
            out@ == chars@.take(i as int),
        decreases chars@.len() - i,
    {
        assert(chars@.take(i as int + 1) =~= chars@.take(i as int).push(chars@[i as int]));
        out.push(chars[i]);
        i += 1;
    }
    assert(chars@.take(i as int) =~= chars@);
    out
}

/// Whether two texts are the same.
pub fn same(a: &str, b: &str) -> (r: bool)
    ensures
        r == (a@ == b@),
{
    let x = a.as_bytes();
    let y = b.as_bytes();
    if x.len() != y.len() {
        return false;
    }
    let mut i: usize = 0;
    while i < x.len()
        invariant
            i <= x@.len(),
            x@.len() == y@.len(),
            x@ == encode_utf8(a@),
            y@ == encode_utf8(b@),
            forall|j: int| 0 <= j < i ==> x@[j] == y@[j],
        decreases x@.len() - i,
    {
        if x[i] != y[i] {
            return false;
        }
        i += 1;
    }
    proof {
        assert(x@ =~= y@);
        lemma_utf8_injective(a@, b@);
    }
    true
}

pub fn is_white_space_char(c: char) -> (r: bool)
    ensures
        r == is_white_space(c),
{
    let n: u32 = c as u32;
    (0x09 <= n && n <= 0x0d) || n == 0x20 || n == 0x85 || n == 0xa0 || n == 0x1680 || (0x2000 <= n
        && n <= 0x200a) || n == 0x2028 || n == 0x2029 || n == 0x202f || n == 0x205f || n == 0x3000
}

/// `chars` without trailing white space.
pub fn trim_end_chars(chars: &[char]) -> (out: Vec<char>)
    ensures
        out@ == trim_end(chars@),
{
    let mut end: usize = chars.len();
    assert(chars@.take(end as int) =~= chars@);
    while end > 0 && is_white_space_char(chars[end - 1])
        invariant
            end <= chars@.len(),
            trim_end(chars@) == trim_end(chars@.take(end as int)),
        decreases end,
    {
        assert(chars@.take(end as int).drop_last() =~= chars@.take(end as int - 1));
        end -= 1;
    }
    copy_range(chars, 0, end)
}

/// `chars` without leading and trailing white space.
pub fn trim_chars(chars: &[char]) -> (out: Vec<char>)
    ensures
        out@ == trim(chars@),
{
    let mut start: usize = 0;
    assert(chars@.skip(0) =~= chars@);
    while start < chars.len() && is_white_space_char(chars[start])
        invariant
            start <= chars@.len(),
            trim_start(chars@) == trim_start(chars@.skip(start as int)),
        decreases chars@.len() - start,
    {
        assert(chars@.skip(start as int).drop_first() =~= chars@.skip(start as int + 1));
        start += 1;
    }
    let rest = copy_range(chars, start, chars.len());
    assert(chars@.subrange(start as int, chars@.len() as int) =~= chars@.skip(start as int));
    trim_end_chars(&rest)
}

/// The characters from `from` up to `to`.
pub fn copy_range(chars: &[char], from: usize, to: usize) -> (out: Vec<char>)
    requires
        from <= to <= chars@.len(),
    ensures
        out@ == chars@.subrange(from as int, to as int),
        from == 0 ==> out@ == chars@.take(to as int),
        to == chars@.len() ==> out@ == chars@.skip(from as int),
{
    let mut out: Vec<char> = Vec::new();
    let mut i: usize = from;
    while i < to
        invariant
            from <= i <= to <= chars@.len(),
            out@ == chars@.subrange(from as int, i as int),
        decreases to - i,
    {
        assert(chars@.subrange(from as int, i as int + 1) =~= chars@.subrange(
            from as int,
            i as int,
        ).push(chars@[i as int]));
        out.push(chars[i]);
        i += 1;
    }
    assert(from == 0 ==> out@ =~= chars@.take(to as int));
    assert(to == chars@.len() ==> out@ =~= chars@.skip(from as int));
    out
}

/// `text` without leading and trailing white space.
pub fn trimmed(text: &str) -> (out: String)
    ensures
        out@ == trim(text@),
{
    let chars = chars_of(text);
    string_of(&trim_chars(&chars))
}

pub fn lower_char(c: char) -> (r: char)
    ensures
        r == lower(c),
{
    match c {
        'A' => 'a', 'B' => 'b', 'C' => 'c', 'D' => 'd', 'E' => 'e', 'F' => 'f', 'G' => 'g',
        'H' => 'h', 'I' => 'i', 'J' => 'j', 'K' => 'k', 'L' => 'l', 'M' => 'm', 'N' => 'n',
        'O' => 'o', 'P' => 'p', 'Q' => 'q', 'R' => 'r', 'S' => 's', 'T' => 't', 'U' => 'u',
        'V' => 'v', 'W' => 'w', 'X' => 'x', 'Y' => 'y', 'Z' => 'z',
        _ => c,
    }
}

/// The ASCII lower-case form of `chars`.
pub fn lower_chars(chars: &[char]) -> (out: Vec<char>)
    ensures
        out@ == to_lower(chars@),
{
    let mut out: Vec<char> = Vec::new();
    let mut i: usize = 0;
    while i < chars.len()
        invariant
            i <= chars@.len(),
            out@ == to_lower(chars@.take(i as int)),
        decreases chars@.len() - i,
    {
        out.push(lower_char(chars[i]));
        assert(to_lower(chars@.take(i as int + 1)) =~= to_lower(chars@.take(i as int)).push(
            lower(chars@[i as int]),
        ));
        i += 1;
    }
    assert(chars@.take(i as int) =~= chars@);
    out
}

pub proof fn lemma_first_of(s: Seq<char>, c: char)
    ensures
        0 <= first_of(s, c) <= s.len(),
        first_of(s, c) < s.len() ==> s[first_of(s, c)] == c,
        forall|i: int| 0 <= i < first_of(s, c) ==> s[i] != c,
        first_of(s, c) == s.len() <==> !s.contains(c),
    decreases s.len(),
{
    if s.len() == 0 || s[0] == c {
    } else {
        let rest = s.drop_first();
        lemma_first_of(rest, c);
        assert forall|i: int| 0 <= i < first_of(s, c) implies s[i] != c by {
            if i > 0 {
                assert(s[i] == rest[i - 1]);
            }
        }
        if first_of(s, c) < s.len() {
            assert(s[first_of(s, c)] == rest[first_of(rest, c)]);
        }
    }
}

/// Nothing but the first `c` sits at a place with no `c` before it.
pub proof fn lemma_first_of_unique(s: Seq<char>, c: char, at: int)
    requires
        0 <= at <= s.len(),
        at < s.len() ==> s[at] == c,
        forall|i: int| 0 <= i < at ==> s[i] != c,
    ensures
        first_of(s, c) == at,
{
    lemma_first_of(s, c);
    let f = first_of(s, c);
    if f < at {
        assert(s[f] != c);
    }
    if at < f {
        assert(s[at] != c);
    }
}

pub proof fn lemma_last_of(s: Seq<char>, c: char)
    ensures
        -1 <= last_of(s, c) < s.len(),
        last_of(s, c) >= 0 ==> s[last_of(s, c)] == c,
        forall|i: int| last_of(s, c) < i < s.len() ==> s[i] != c,
        last_of(s, c) == -1 <==> !s.contains(c),
    decreases s.len(),
{
    if s.len() == 0 {
    } else if s.last() == c {
    } else {
        let rest = s.drop_last();
        lemma_last_of(rest, c);
        assert forall|i: int| last_of(s, c) < i < s.len() implies s[i] != c by {
            if i < s.len() - 1 {
                assert(s[i] == rest[i]);
            }
        }
    }
}

pub proof fn lemma_last_of_unique(s: Seq<char>, c: char, at: int)
    requires
        -1 <= at < s.len(),
        at >= 0 ==> s[at] == c,
        forall|i: int| at < i < s.len() ==> s[i] != c,
    ensures
        last_of(s, c) == at,
{
    lemma_last_of(s, c);
    let l = last_of(s, c);
    if l < at {
        assert(s[at] != c);
    }
    if at < l {
        assert(s[l] != c);
    }
}

/// The place of the first `c` at or after `from`, or the length.
pub fn find_from(chars: &[char], c: char, from: usize) -> (at: usize)
    requires
        from <= chars@.len(),
    ensures
        at == from + first_of(chars@.skip(from as int), c),
        from <= at <= chars@.len(),
{
    let mut at: usize = from;
    while at < chars.len() && chars[at] != c
        invariant
            from <= at <= chars@.len(),
            forall|i: int| from <= i < at ==> chars@[i] != c,
        decreases chars@.len() - at,
    {
        at += 1;
    }
    proof {
        lemma_first_of_unique(chars@.skip(from as int), c, at - from);
    }
    at
}

/// The place of the first `c`, or the length.
pub fn find(chars: &[char], c: char) -> (at: usize)
    ensures
        at == first_of(chars@, c),
        at <= chars@.len(),
{
    assert(chars@.skip(0) =~= chars@);
    find_from(chars, c, 0)
}

/// The place of the last `c`, if there is one.
pub fn rfind(chars: &[char], c: char) -> (at: Option<usize>)
    ensures
        match at {
            Some(i) => i == last_of(chars@, c) && i < chars@.len(),
            None => last_of(chars@, c) == -1,
        },
{
    let mut end: usize = chars.len();
    while end > 0
        invariant
            end <= chars@.len(),
            forall|i: int| end <= i < chars@.len() ==> chars@[i] != c,
        decreases end,
    {
        end -= 1;
        if chars[end] == c {
            proof {
                lemma_last_of_unique(chars@, c, end as int);
            }
            return Some(end);
        }
    }
    proof {
        lemma_last_of_unique(chars@, c, -1);
    }
    None
}

/// Names, as the texts they are.
pub open spec fn names(list: Seq<&str>) -> Seq<Seq<char>> {
    list.map_values(|s: &str| s@)
}

/// Texts of owned strings.
pub open spec fn texts(list: Seq<String>) -> Seq<Seq<char>> {
    list.map_values(|s: String| s@)
}

pub open spec fn views(fields: Seq<Vec<char>>) -> Seq<Seq<char>> {
    fields.map_values(|f: Vec<char>| f@)
}

/// The fields of `chars` between its separators.
pub fn split_chars(chars: &[char], c: char) -> (out: Vec<Vec<char>>)
    ensures
        views(out@) == split(chars@, c),
        out@.len() >= 1,
{
    let mut out: Vec<Vec<char>> = Vec::new();
    let mut from: usize = 0;
    assert(chars@.skip(0) =~= chars@);
    assert(views(out@) + split(chars@, c) =~= split(chars@, c));
    loop
        invariant_except_break
            from <= chars@.len(),
            views(out@) + split(chars@.skip(from as int), c) == split(chars@, c),
        ensures
            views(out@) == split(chars@, c),
            out@.len() >= 1,
        decreases chars@.len() + 1 - from,
    {
        let ghost rest = chars@.skip(from as int);
        let ghost done = views(out@);
        let at = find_from(chars, c, from);
        let field = copy_range(chars, from, at);
        assert(field@ =~= rest.take(at - from));
        out.push(field);
        assert(views(out@) =~= done.push(field@));
        if at == chars.len() {
            assert(rest.take(at - from) =~= rest);
            assert(views(out@) =~= done + seq![rest]);
            break;
        }
        assert(rest.skip(at - from + 1) =~= chars@.skip(at as int + 1));
        assert(views(out@) + split(chars@.skip(at as int + 1), c) =~= done + split(rest, c));
        from = at + 1;
    }
    out
}

pub proof fn lemma_decimal_monotone(s: Seq<char>, k: int)
    requires
        0 <= k <= s.len(),
        forall|i: int| 0 <= i < s.len() ==> is_digit(#[trigger] s[i]),
    ensures
        decimal_value(s.take(k)) <= decimal_value(s),
    decreases s.len() - k,
{
    if k == s.len() {
        assert(s.take(k) =~= s);
    } else {
        lemma_decimal_monotone(s, k + 1);
        assert(s.take(k + 1).drop_last() =~= s.take(k));
        assert(is_digit(s[k]));
    }
}

/// Reads a whole number of at most `max`.
pub fn parse_number(chars: &[char], max: u64) -> (out: Option<u64>)
    ensures
        match out {
            Some(n) => parse_unsigned(chars@, max as nat) == Some(n as nat),
            None => parse_unsigned(chars@, max as nat) is None,
        },
{
    let start: usize = if chars.len() > 0 && chars[0] == '+' {
        1
    } else {
        0
    };
    let ghost digits = unsigned_digits(chars@);
    assert(digits =~= chars@.skip(start as int));
    if start == chars.len() {
        return None;
    }
    let mut i: usize = start;
    let mut n: u64 = 0;
    while i < chars.len()
        invariant
            start <= i <= chars@.len(),
            digits == chars@.skip(start as int),
            digits == unsigned_digits(chars@),
            n == decimal_value(digits.take(i - start)),
            n <= max,
            forall|j: int| 0 <= j < i - start ==> is_digit(#[trigger] digits[j]),
        decreases chars@.len() - i,
    {
        let c = chars[i];
        assert(digits[i - start] == c);
        if !('0' <= c && c <= '9') {
            return None;
        }
        let d: u64 = (c as u32 - '0' as u32) as u64;
        assert(digits.take(i - start + 1).drop_last() =~= digits.take(i - start));
        assert(decimal_value(digits.take(i - start + 1)) == 10 * n + d);
        if d > max || n > (max - d) / 10 {
            proof {
                if forall|j: int| 0 <= j < digits.len() ==> is_digit(#[trigger] digits[j]) {
                    lemma_decimal_monotone(digits, i - start + 1);
                }
            }
            return None;
        }
        n = 10 * n + d;
        i += 1;
    }
    assert(digits.take(i - start) =~= digits);
    Some(n)
}

pub fn digit(d: u64) -> (c: char)
    requires
        d < 10,
    ensures
        c == digit_char(d as int),
{
    match d {
        0 => '0', 1 => '1', 2 => '2', 3 => '3', 4 => '4',
        5 => '5', 6 => '6', 7 => '7', 8 => '8', _ => '9',
    }
}

/// `n` in decimal.
pub fn decimal_text(n: u64) -> (out: String)
    ensures
        out@ == decimal(n as nat),
    decreases n,
{
    if n < 10 {
        let mut out = String::new();
        out.push(digit(n));
        assert(out@ =~= decimal(n as nat));
        out
    } else {
        let mut out = decimal_text(n / 10);
        out.push(digit(n % 10));
        out
    }
}

pub fn hex_digit_char(d: u8) -> (c: char)
    requires
        d < 16,
    ensures
        c == hex_char(d as int),
{
    match d {
        0 => '0', 1 => '1', 2 => '2', 3 => '3', 4 => '4', 5 => '5', 6 => '6', 7 => '7',
        8 => '8', 9 => '9', 10 => 'a', 11 => 'b', 12 => 'c', 13 => 'd', 14 => 'e', _ => 'f',
    }
}

/// `bytes` as lower-case hexadecimal.
pub fn hex_string(bytes: &[u8]) -> (out: String)
    ensures
        out@ == hex_text(bytes@),
{
    let mut out = String::new();
    let mut i: usize = 0;
    while i < bytes.len()
        invariant
            i <= bytes@.len(),
            out@ == hex_text(bytes@.take(i as int)),
        decreases bytes@.len() - i,
    {
        let b: u8 = bytes[i];
        assert(bytes@.take(i as int + 1).drop_last() =~= bytes@.take(i as int));
        out.push(hex_digit_char(b / 16));
        out.push(hex_digit_char(b % 16));
        i += 1;
    }
    assert(bytes@.take(i as int) =~= bytes@);
    out
}

/// `n` as exactly `width` lower-case hexadecimal digits.
pub fn hex_fixed_text(n: u64, width: u32) -> (out: String)
    ensures
        out@ == hex_fixed(n as nat, width as nat),
    decreases width,
{
    if width == 0 {
        let out = String::new();
        assert(out@ =~= hex_fixed(n as nat, 0));
        out
    } else {
        let mut out = hex_fixed_text(n / 16, width - 1);
        out.push(hex_digit_char((n % 16) as u8));
        out
    }
}

proof fn lemma_trim_start(s: Seq<char>)
    ensures
        trim_start(s).len() > 0 ==> !is_white_space(trim_start(s)[0]),
    decreases s.len(),
{
    if s.len() > 0 && is_white_space(s[0]) {
        lemma_trim_start(s.drop_first());
    }
}

proof fn lemma_trim_end(s: Seq<char>)
    ensures
        trim_end(s).is_prefix_of(s),
        trim_end(s).len() > 0 ==> !is_white_space(trim_end(s).last()),
    decreases s.len(),
{
    if s.len() > 0 && is_white_space(s.last()) {
        lemma_trim_end(s.drop_last());
        assert(trim_end(s) =~= s.take(trim_end(s).len() as int));
    } else {
        assert(s =~= s.take(s.len() as int));
    }
}

/// Trimming leaves white space at neither end, so doing it again does nothing.
pub proof fn lemma_trim_twice(s: Seq<char>)
    ensures
        trim(trim(s)) == trim(s),
{
    lemma_trim_start(s);
    lemma_trim_end(trim_start(s));
    let t = trim(s);
    if t.len() > 0 {
        assert(t[0] == trim_start(s)[0]);
    }
    lemma_trim_none(t);
}

/// Text that neither starts nor ends with white space is its own trimming.
pub proof fn lemma_trim_none(s: Seq<char>)
    requires
        s.len() > 0 ==> !is_white_space(s[0]) && !is_white_space(s.last()),
    ensures
        trim(s) == s,
{
}

pub proof fn lemma_hex_char(d: int)
    requires
        0 <= d < 16,
    ensures
        is_hex(hex_char(d)),
        hex_digit(hex_char(d)) == d,
        hex_char(d) != '.',
        hex_char(d) != '-',
        !is_white_space(hex_char(d)),
        lower(hex_char(d)) == hex_char(d),
        hex_char(d) == '0' <==> d == 0,
{
}

/// Where each byte's two digits stand.
pub proof fn lemma_hex_text(bytes: Seq<u8>)
    ensures
        hex_text(bytes).len() == 2 * bytes.len(),
        forall|i: int|
            #![trigger bytes[i]]
            0 <= i < bytes.len() ==> hex_text(bytes)[2 * i] == hex_char(bytes[i] as int / 16)
                && hex_text(bytes)[2 * i + 1] == hex_char(bytes[i] as int % 16),
        forall|k: int| 0 <= k < hex_text(bytes).len() ==> is_hex(#[trigger] hex_text(bytes)[k]),
        forall|k: int| 0 <= k < hex_text(bytes).len() ==> (#[trigger] hex_text(bytes)[k]) != '.',
        forall|k: int|
            0 <= k < hex_text(bytes).len() ==> !is_white_space(#[trigger] hex_text(bytes)[k]),
    decreases bytes.len(),
{
    if bytes.len() > 0 {
        let rest = bytes.drop_last();
        let b = bytes.last();
        lemma_hex_text(rest);
        lemma_hex_char(b as int / 16);
        lemma_hex_char(b as int % 16);
        let n = rest.len() as int;
        assert(hex_text(bytes) =~= hex_text(rest) + seq![hex_char(b as int / 16), hex_char(b as int % 16)]);
        assert forall|i: int|
            #![trigger bytes[i]]
            0 <= i < bytes.len() implies hex_text(bytes)[2 * i] == hex_char(bytes[i] as int / 16)
            && hex_text(bytes)[2 * i + 1] == hex_char(bytes[i] as int % 16) by {
            if i < n {
                assert(rest[i] == bytes[i]);
            }
        }
        assert forall|k: int| 0 <= k < hex_text(bytes).len() implies is_hex(
            #[trigger] hex_text(bytes)[k],
        ) && hex_text(bytes)[k] != '.' && !is_white_space(hex_text(bytes)[k]) by {
            if k < 2 * n {
                assert(hex_text(bytes)[k] == hex_text(rest)[k]);
            }
        }
    }
}

/// The bytes that pairs of hexadecimal digits spell.
pub open spec fn unhex_bytes(s: Seq<char>) -> Option<Seq<u8>> {
    if s.len() % 2 == 0 && (forall|k: int| 0 <= k < s.len() ==> is_hex(#[trigger] s[k])) {
        Some(
            Seq::new(
                s.len() / 2,
                |i: int| (16 * hex_digit(s[2 * i]) + hex_digit(s[2 * i + 1])) as u8,
            ),
        )
    } else {
        None
    }
}

/// Reading hexadecimal text back gives the bytes it was written from.
pub proof fn law_hex_round_trips(bytes: Seq<u8>)
    ensures
        unhex_bytes(hex_text(bytes)) == Some(bytes),
{
    lemma_hex_text(bytes);
    let s = hex_text(bytes);
    let out = Seq::new(
        s.len() / 2,
        |i: int| (16 * hex_digit(s[2 * i]) + hex_digit(s[2 * i + 1])) as u8,
    );
    assert forall|i: int| 0 <= i < bytes.len() implies out[i] == bytes[i] by {
        let b = bytes[i] as int;
        lemma_hex_char(b / 16);
        lemma_hex_char(b % 16);
        assert(s[2 * i] == hex_char(b / 16));
        assert(16 * (b / 16) + b % 16 == b);
    }
    assert(out =~= bytes);
}

pub fn is_hex_digit(c: char) -> (r: bool)
    ensures
        r == is_hex(c),
{
    ('0' <= c && c <= '9') || ('a' <= c && c <= 'f') || ('A' <= c && c <= 'F')
}

/// What one hexadecimal digit stands for.
pub fn hex_digit_value(c: char) -> (d: u8)
    requires
        is_hex(c),
    ensures
        d == hex_digit(c),
        d < 16,
{
    let n: u32 = c as u32;
    if '0' <= c && c <= '9' {
        (n - 48) as u8
    } else if 'a' <= c && c <= 'f' {
        (n - 97 + 10) as u8
    } else {
        (n - 65 + 10) as u8
    }
}

/// Whether every character is a hexadecimal digit.
pub fn all_hex(chars: &[char]) -> (r: bool)
    ensures
        r == (forall|k: int| 0 <= k < chars@.len() ==> is_hex(#[trigger] chars@[k])),
{
    let mut i: usize = 0;
    while i < chars.len()
        invariant
            i <= chars@.len(),
            forall|k: int| 0 <= k < i ==> is_hex(#[trigger] chars@[k]),
        decreases chars@.len() - i,
    {
        if !is_hex_digit(chars[i]) {
            return false;
        }
        i += 1;
    }
    true
}

/// Reads pairs of hexadecimal digits.
pub fn unhex_chars(chars: &[char]) -> (out: Option<Vec<u8>>)
    ensures
        match out {
            Some(bytes) => unhex_bytes(chars@) == Some(bytes@),
            None => unhex_bytes(chars@) is None,
        },
{
    if chars.len() % 2 != 0 || !all_hex(chars) {
        return None;
    }
    let mut out: Vec<u8> = Vec::new();
    let ghost want = unhex_bytes(chars@)->0;
    let mut i: usize = 0;
    while i < chars.len()
        invariant
            i <= chars@.len(),
            i % 2 == 0,
            chars@.len() % 2 == 0,
            forall|k: int| 0 <= k < chars@.len() ==> is_hex(#[trigger] chars@[k]),
            unhex_bytes(chars@) == Some(want),
            want.len() == chars@.len() / 2,
            out@ == want.take(i as int / 2),
        decreases chars@.len() - i,
    {
        let high: u8 = hex_digit_value(chars[i]);
        let low: u8 = hex_digit_value(chars[i + 1]);
        let ghost at = i as int / 2;
        assert(2 * at == i && 2 * at + 1 == i + 1);
        assert(want[at] == 16 * high + low);
        assert(want.take(at + 1) =~= want.take(at).push(want[at]));
        out.push(16 * high + low);
        i += 2;
    }
    assert(want.take(i as int / 2) =~= want);
    Some(out)
}

/// Text without the separator is one field.
pub proof fn lemma_split_none(s: Seq<char>, c: char)
    requires
        !s.contains(c),
    ensures
        split(s, c) == seq![s],
{
    lemma_first_of(s, c);
}

/// A field that does not hold the separator splits off the front.
pub proof fn lemma_split_first(field: Seq<char>, c: char, rest: Seq<char>)
    requires
        !field.contains(c),
    ensures
        split(field + seq![c] + rest, c) == seq![field] + split(rest, c),
{
    let s = field + seq![c] + rest;
    assert forall|i: int| 0 <= i < field.len() implies s[i] != c by {
        assert(field.contains(field[i]));
    }
    assert(s[field.len() as int] == c);
    lemma_first_of_unique(s, c, field.len() as int);
    assert(s.take(field.len() as int) =~= field);
    assert(s.skip(field.len() as int + 1) =~= rest);
}

/// What every rendering in hexadecimal digits looks like.
pub proof fn lemma_hex_fixed(n: nat, width: nat)
    ensures
        hex_fixed(n, width).len() == width,
        forall|k: int| 0 <= k < width ==> is_hex(#[trigger] hex_fixed(n, width)[k]),
        forall|k: int|
            0 <= k < width ==> lower(#[trigger] hex_fixed(n, width)[k]) == hex_fixed(n, width)[k],
    decreases width,
{
    if width > 0 {
        lemma_hex_fixed(n / 16, (width - 1) as nat);
        lemma_hex_char((n % 16) as int);
    }
}

/// Only zero renders as zeros, when the digits are enough to hold the number.
pub proof fn lemma_hex_fixed_zero(n: nat, width: nat)
    requires
        n < vstd::arithmetic::power::pow(16, width),
        forall|k: int| 0 <= k < width ==> #[trigger] hex_fixed(n, width)[k] == '0',
    ensures
        n == 0,
    decreases width,
{
    reveal(vstd::arithmetic::power::pow);
    if width > 0 {
        let rest = (width - 1) as nat;
        lemma_hex_fixed(n / 16, rest);
        let text = hex_fixed(n, width);
        assert(text == hex_fixed(n / 16, rest).push(hex_char((n % 16) as int)));
        assert(text[width - 1] == hex_char((n % 16) as int));
        lemma_hex_char((n % 16) as int);
        assert forall|k: int| 0 <= k < rest implies #[trigger] hex_fixed(n / 16, rest)[k]
            == '0' by {
            assert(hex_fixed(n / 16, rest)[k] == text[k]);
        }
        lemma_hex_fixed_zero(n / 16, rest);
    }
}

/// Lower-casing text that is in lower case already changes nothing.
pub proof fn lemma_to_lower_same(s: Seq<char>)
    requires
        forall|k: int| 0 <= k < s.len() ==> lower(#[trigger] s[k]) == s[k],
    ensures
        to_lower(s) == s,
{
    assert(to_lower(s) =~= s);
}

/// Whether `chars` starts with `prefix`.
pub fn starts_with(chars: &[char], prefix: &str) -> (r: bool)
    ensures
        r == prefix@.is_prefix_of(chars@),
{
    let want = chars_of(prefix);
    if chars.len() < want.len() {
        return false;
    }
    let mut i: usize = 0;
    while i < want.len()
        invariant
            i <= want@.len() <= chars@.len(),
            want@ == prefix@,
            forall|k: int| 0 <= k < i ==> chars@[k] == want@[k],
        decreases want@.len() - i,
    {
        if chars[i] != want[i] {
            return false;
        }
        i += 1;
    }
    assert(prefix@ =~= chars@.take(prefix@.len() as int));
    true
}

/// Whether `c` occurs in `chars`.
pub fn has_char(chars: &[char], c: char) -> (r: bool)
    ensures
        r == chars@.contains(c),
{
    let at: usize = find(chars, c);
    proof {
        lemma_first_of(chars@, c);
    }
    at < chars.len()
}

/// Whether `text` is one of `list`.
pub fn is_listed(list: &[String], text: &str) -> (r: bool)
    ensures
        r == texts(list@).contains(text@),
{
    let mut i: usize = 0;
    while i < list.len()
        invariant
            i <= list@.len(),
            forall|k: int| 0 <= k < i ==> texts(list@)[k] != text@,
        decreases list@.len() - i,
    {
        if same(list[i].as_str(), text) {
            assert(texts(list@)[i as int] == text@);
            return true;
        }
        i += 1;
    }
    false
}

/// A number below a power of ten has no more digits than the power.
pub proof fn lemma_decimal_len(n: nat, width: nat)
    requires
        width >= 1,
        n < vstd::arithmetic::power::pow(10, width),
    ensures
        decimal(n).len() <= width,
    decreases width,
{
    reveal(vstd::arithmetic::power::pow);
    if n >= 10 {
        if width == 1 {
            assert(vstd::arithmetic::power::pow(10, 1) == 10) by {
                reveal_with_fuel(vstd::arithmetic::power::pow, 2);
            }
        } else {
            lemma_decimal_len(n / 10, (width - 1) as nat);
        }
    }
}

/// White space is what Unicode calls so: twenty-five characters.
pub proof fn law_white_space_is_unicodes(c: char)
    ensures
        is_white_space(c) <==> set![
            9int, 10, 11, 12, 13, 32, 133, 160, 5760, 8192, 8193, 8194, 8195, 8196, 8197, 8198, 8199,
            8200, 8201, 8202, 8232, 8233, 8239, 8287, 12288,
        ].contains(c as int),
{
}

proof fn lemma_trim_start_cut(s: Seq<char>)
    ensures
        trim_start(s).len() <= s.len(),
        trim_start(s) == s.skip(s.len() - trim_start(s).len()),
        forall|i: int| 0 <= i < s.len() - trim_start(s).len() ==> is_white_space(#[trigger] s[i]),
    decreases s.len(),
{
    if s.len() > 0 && is_white_space(s[0]) {
        let rest = s.drop_first();
        lemma_trim_start_cut(rest);
        assert(trim_start(s) =~= s.skip(s.len() - trim_start(s).len()));
        assert forall|i: int| 0 <= i < s.len() - trim_start(s).len() implies is_white_space(
            #[trigger] s[i],
        ) by {
            if i > 0 {
                assert(s[i] == rest[i - 1]);
            }
        }
    } else {
        assert(s.skip(0) =~= s);
    }
}

/// Trimming the end takes white space off it and nothing else, and leaves none.
pub proof fn law_trimming_the_end_takes_only_white_space(s: Seq<char>)
    ensures
        trim_end(s).is_prefix_of(s),
        trim_end(s).len() > 0 ==> !is_white_space(trim_end(s).last()),
        forall|i: int| trim_end(s).len() <= i < s.len() ==> is_white_space(#[trigger] s[i]),
    decreases s.len(),
{
    lemma_trim_end(s);
    if s.len() > 0 && is_white_space(s.last()) {
        let rest = s.drop_last();
        law_trimming_the_end_takes_only_white_space(rest);
        assert forall|i: int| trim_end(s).len() <= i < s.len() implies is_white_space(
            #[trigger] s[i],
        ) by {
            if i < rest.len() {
                assert(s[i] == rest[i]);
            }
        }
    }
}

/// Trimming takes white space off both ends and nothing else, and leaves none
/// there.
pub proof fn law_trimming_takes_only_white_space(s: Seq<char>)
    ensures
        exists|from: int|
            {
                &&& 0 <= from
                &&& from + trim(s).len() <= s.len()
                &&& trim(s) == #[trigger] s.subrange(from, from + trim(s).len())
                &&& forall|i: int| 0 <= i < from ==> is_white_space(#[trigger] s[i])
                &&& forall|i: int|
                    from + trim(s).len() <= i < s.len() ==> is_white_space(#[trigger] s[i])
            },
        trim(s).len() > 0 ==> !is_white_space(trim(s)[0]) && !is_white_space(trim(s).last()),
{
    let t = trim_start(s);
    lemma_trim_start_cut(s);
    lemma_trim_start(s);
    law_trimming_the_end_takes_only_white_space(t);
    let from = s.len() - t.len();
    assert(trim(s) =~= s.subrange(from, from + trim(s).len()));
    assert forall|i: int| from + trim(s).len() <= i < s.len() implies is_white_space(
        #[trigger] s[i],
    ) by {
        assert(s[i] == t[i - from]);
    }
    if trim(s).len() > 0 {
        assert(trim(s)[0] == t[0]);
    }
}

/// Lower case keeps every character in its place and moves the letters from `A`
/// to `Z`, and only those, thirty-two places on.
pub proof fn law_only_letters_change_case(s: Seq<char>, i: int)
    requires
        0 <= i < s.len(),
    ensures
        to_lower(s).len() == s.len(),
        to_lower(s)[i] as int == s[i] as int + if 65 <= s[i] as int <= 90 {
            32int
        } else {
            0
        },
{
}

/// Fields with a separator between each two of them.
pub open spec fn joined_by(fields: Seq<Seq<char>>, c: char) -> Seq<char>
    decreases fields.len(),
{
    if fields.len() == 0 {
        Seq::empty()
    } else if fields.len() == 1 {
        fields[0]
    } else {
        fields[0].push(c) + joined_by(fields.drop_first(), c)
    }
}

/// Splitting loses nothing: the fields with the separator between them are the
/// text, and the separator is in none of them.
pub proof fn law_fields_join_to_the_text(s: Seq<char>, c: char)
    ensures
        split(s, c).len() > 0,
        joined_by(split(s, c), c) == s,
        forall|i: int| 0 <= i < split(s, c).len() ==> !(#[trigger] split(s, c)[i]).contains(c),
    decreases s.len(),
{
    lemma_first_of(s, c);
    let at = first_of(s, c);
    if at < s.len() {
        let rest = s.skip(at + 1);
        law_fields_join_to_the_text(rest, c);
        let all = split(s, c);
        assert(all.drop_first() =~= split(rest, c));
        assert(s =~= s.take(at).push(c) + rest);
        assert forall|i: int| 0 <= i < all.len() implies !(#[trigger] all[i]).contains(c) by {
            if i == 0 {
                assert(all[0] == s.take(at));
            } else {
                assert(all[i] == split(rest, c)[i - 1]);
            }
        }
    } else {
        assert(split(s, c) =~= seq![s]);
    }
}

/// A number in decimal is digits only, has no zero in front unless it is zero,
/// and stands for that number.
pub proof fn law_decimal_spells_the_number(n: nat)
    ensures
        decimal(n).len() > 0,
        forall|i: int| 0 <= i < decimal(n).len() ==> '0' <= #[trigger] decimal(n)[i] && decimal(n)[i]
            <= '9',
        decimal(n)[0] == '0' <==> n == 0,
        decimal_value(decimal(n)) == n,
    decreases n,
{
    if n < 10 {
        assert(decimal(n).drop_last() =~= Seq::empty());
        assert(decimal_value(Seq::empty()) == 0);
    } else {
        law_decimal_spells_the_number(n / 10);
        assert(decimal(n).drop_last() =~= decimal(n / 10));
        assert(decimal(n)[0] == decimal(n / 10)[0]);
    }
}

/// Digits count ten times as much with every place, and a digit for its distance
/// from zero.
pub proof fn law_digits_are_decimal(s: Seq<char>, c: char)
    requires
        '0' <= c && c <= '9',
    ensures
        decimal_value(Seq::empty()) == 0,
        decimal_value(s.push(c)) == 10 * decimal_value(s) + (c as int - 48),
{
    assert(s.push(c).drop_last() =~= s);
}

/// A number is read exactly from digits, with or without a plus sign before them,
/// that stand for no more than the bound.
pub proof fn law_a_number_is_read_from_its_digits(digits: Seq<char>, max: nat)
    ensures
        ({
            let spells = digits.len() > 0 && forall|i: int|
                0 <= i < digits.len() ==> '0' <= #[trigger] digits[i] && digits[i] <= '9';
            let plus = seq!['+'] + digits;
            &&& spells && decimal_value(digits) <= max ==> parse_unsigned(digits, max) == Some(
                decimal_value(digits),
            ) && parse_unsigned(plus, max) == Some(decimal_value(digits))
            &&& !(spells && decimal_value(digits) <= max) ==> parse_unsigned(plus, max) is None
            &&& !(spells && decimal_value(digits) <= max) && (digits.len() == 0 || digits[0]
                != '+') ==> parse_unsigned(digits, max) is None
        }),
{
    let plus = seq!['+'] + digits;
    assert(plus.drop_first() =~= digits);
    assert(unsigned_digits(plus) == digits);
    if digits.len() > 0 && digits[0] == '+' {
        assert(!is_digit(digits[0]));
    } else {
        assert(unsigned_digits(digits) == digits);
    }
    if forall|i: int| 0 <= i < digits.len() ==> '0' <= #[trigger] digits[i] && digits[i] <= '9' {
        assert forall|i: int| 0 <= i < digits.len() implies is_digit(#[trigger] digits[i]) by {}
    } else {
        let i = choose|i: int|
            0 <= i < digits.len() && !('0' <= #[trigger] digits[i] && digits[i] <= '9');
        assert(!is_digit(digits[i]));
    }
}

/// The digits of a byte and what they stand for, both ways round; capitals stand
/// for the same.
pub proof fn law_hex_digits(d: int, c: char)
    requires
        0 <= d < 16,
    ensures
        hex_char(d) == "0123456789abcdef"@[d],
        is_hex(c) <==> "0123456789abcdefABCDEF"@.contains(c),
        c == "0123456789abcdef"@[d] ==> hex_digit(c) == d,
        d >= 10 && c == "ABCDEF"@[d - 10] ==> hex_digit(c) == d,
{
    reveal_strlit("0123456789abcdef");
    reveal_strlit("0123456789abcdefABCDEF");
    reveal_strlit("ABCDEF");
    let all = "0123456789abcdefABCDEF"@;
    if is_hex(c) {
        let at = if '0' <= c && c <= '9' {
            c as int - 48
        } else if 'a' <= c && c <= 'f' {
            c as int - 97 + 10
        } else {
            c as int - 65 + 16
        };
        assert(all[at] == c);
    }
}

/// Each place of a fixed number of hexadecimal digits counts sixteen times the
/// one after it.
pub proof fn law_hex_digits_spell_the_number(n: nat, width: nat, k: nat)
    requires
        k < width,
    ensures
        hex_fixed(n, width).len() == width,
        hex_digit(hex_fixed(n, width)[width - 1 - k]) == (n / vstd::arithmetic::power::pow(
            16,
            k,
        ) as nat) % 16,
    decreases width,
{
    use_pow(k);
    lemma_hex_fixed(n, width);
    lemma_hex_fixed(n / 16, (width - 1) as nat);
    lemma_hex_char((n % 16) as int);
    if k == 0 {
        assert(vstd::arithmetic::power::pow(16, 0) == 1);
        assert(n / 1 == n);
    } else {
        let less = (k - 1) as nat;
        law_hex_digits_spell_the_number(n / 16, (width - 1) as nat, less);
        let p = vstd::arithmetic::power::pow(16, less);
        assert(vstd::arithmetic::power::pow(16, k) == 16 * p);
        use_pow(less);
        vstd::arithmetic::div_mod::lemma_div_denominator(n as int, 16, p);
    }
}

proof fn use_pow(k: nat)
    ensures
        vstd::arithmetic::power::pow(16, k) > 0,
        vstd::arithmetic::power::pow(16, 0) == 1,
        k > 0 ==> vstd::arithmetic::power::pow(16, k) == 16 * vstd::arithmetic::power::pow(
            16,
            (k - 1) as nat,
        ),
{
    vstd::arithmetic::power::lemma_pow_positive(16, k);
    reveal(vstd::arithmetic::power::pow);
}

/// Pairs of hexadecimal digits are read as one byte each, the first digit for
/// sixteens; anything else is not read.
pub proof fn law_bytes_are_read_from_pairs(s: Seq<char>, i: int)
    requires
        0 <= 2 * i < s.len(),
    ensures
        unhex_bytes(s) is Some <==> s.len() % 2 == 0 && forall|k: int|
            0 <= k < s.len() ==> is_hex(#[trigger] s[k]),
        unhex_bytes(s) is Some ==> 2 * unhex_bytes(s)->0.len() == s.len() && unhex_bytes(s)->0[i]
            == 16 * hex_digit(s[2 * i]) + hex_digit(s[2 * i + 1]),
{
    if unhex_bytes(s) is Some {
        assert(is_hex(s[2 * i]) && is_hex(s[2 * i + 1]));
    }
}

/// Whether `part` stands somewhere in `s`, as one piece.
pub open spec fn holds_part(s: Seq<char>, part: Seq<char>) -> bool {
    exists|at: int|
        0 <= at && at + part.len() <= s.len() && #[trigger] s.subrange(at, at + part.len()) == part
}

/// What stands between two pieces stands in the whole.
pub proof fn lemma_holds_part(before: Seq<char>, part: Seq<char>, after: Seq<char>)
    ensures
        holds_part(before + part + after, part),
{
    let s = before + part + after;
    let at = before.len() as int;
    assert(s.subrange(at, at + part.len()) =~= part);
}

/// Lists of texts are seen whole, each text in its place.
pub proof fn law_lists_are_seen_whole(
    borrowed: Seq<&str>,
    owned: Seq<String>,
    fields: Seq<Vec<char>>,
    i: int,
)
    ensures
        names(borrowed).len() == borrowed.len() && texts(owned).len() == owned.len()
            && views(fields).len() == fields.len(),
        0 <= i < borrowed.len() ==> names(borrowed)[i] == borrowed[i]@,
        0 <= i < owned.len() ==> texts(owned)[i] == owned[i]@,
        0 <= i < fields.len() ==> views(fields)[i] == fields[i]@,
{
}

} // verus!
