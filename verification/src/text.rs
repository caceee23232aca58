use vstd::prelude::*;

verus! {

/// Appending one character extends the text by exactly that character
/// (`String::push`).
pub assume_specification[ String::push ](s: &mut String, c: char)
    ensures
        final(s)@ == old(s)@.push(c),
;

/// The characters of `s`, in order.
pub(crate) fn chars_of(s: &str) -> (v: Vec<char>)
    ensures
        v@ == s@,
{
    let mut v: Vec<char> = Vec::new();
    for c in it: s.chars()
        invariant
            v@ == it.seq().take(it.index()),
    {
        v.push(c);
    }
    v
}

/// The text made of the characters of `v`, in order.
pub(crate) fn string_of(v: &Vec<char>) -> (s: String)
    ensures
        s@ == v@,
{
    let mut s = String::new();
    let mut i: usize = 0;
    while i < v.len()
        invariant
            i <= v.len(),
            s@ == v@.take(i as int),
        decreases v.len() - i,
    {
        s.push(v[i]);
        i += 1;
    }
    s
}

/// The texts held by a list of character vectors.
pub open spec fn texts_of(fields: Seq<Vec<char>>) -> Seq<Seq<char>> {
    Seq::new(fields.len(), |i: int| fields[i]@)
}

/// Appends the characters of `tail` to `out`.
pub(crate) fn append(out: &mut Vec<char>, tail: &Vec<char>)
    ensures
        final(out)@ == old(out)@ + tail@,
{
    let mut i: usize = 0;
    while i < tail.len()
        invariant
            i <= tail.len(),
            out@ == old(out)@ + tail@.take(i as int),
        decreases tail.len() - i,
    {
        out.push(tail[i]);
        i += 1;
    }
}

/// Appends the characters of the text `tail` to `out`.
pub(crate) fn append_str(out: &mut Vec<char>, tail: &str)
    ensures
        final(out)@ == old(out)@ + tail@,
{
    let t = chars_of(tail);
    append(out, &t);
}

/// The characters of `v` from index `from` up to, not including, `to`.
pub(crate) fn slice_of(v: &Vec<char>, from: usize, to: usize) -> (r: Vec<char>)
    requires
        from <= to <= v.len(),
    ensures
        r@ == v@.subrange(from as int, to as int),
{
    let mut r: Vec<char> = Vec::new();
    let mut i: usize = from;
    while i < to
        invariant
            from <= i <= to <= v.len(),
            r@ == v@.subrange(from as int, i as int),
        decreases to - i,
    {
        r.push(v[i]);
        i += 1;
    }
    r
}

/// Whether two character vectors hold the same text.
pub(crate) fn same_text(a: &Vec<char>, b: &Vec<char>) -> (r: bool)
    ensures
        r == (a@ == b@),
{
    if a.len() != b.len() {
        return false;
    }
    let mut i: usize = 0;
    while i < a.len()
        invariant
            i <= a.len(),
            a.len() == b.len(),
            a@.take(i as int) == b@.take(i as int),
        decreases a.len() - i,
    {
        if a[i] != b[i] {
            assert(a@[i as int] != b@[i as int]);
            return false;
        }
        assert(a@.take(i + 1) == a@.take(i as int).push(a@[i as int]));
        assert(b@.take(i + 1) == b@.take(i as int).push(b@[i as int]));
        i += 1;
    }
    assert(a@.take(a.len() as int) == a@);
    assert(b@.take(b.len() as int) == b@);
    true
}

/// The pieces into which the separator `sep` cuts `s`: the text before its
/// first occurrence, the texts between consecutive occurrences, and the text
/// after the last one. There is always at least one piece, and a piece is
/// empty where two separators touch or one stands at an end of `s`.
pub open spec fn split(s: Seq<char>, sep: char) -> Seq<Seq<char>>
    decreases s.len(),
{
    if s.len() == 0 {
        seq![Seq::<char>::empty()]
    } else {
        let before = split(s.drop_last(), sep);
        if s.last() == sep {
            before.push(Seq::<char>::empty())
        } else {
            before.drop_last().push(before.last().push(s.last()))
        }
    }
}

/// A text is cut into at least one piece.
pub proof fn lemma_split_nonempty(s: Seq<char>, sep: char)
    ensures
        split(s, sep).len() >= 1,
    decreases s.len(),
{
    if s.len() > 0 {
        lemma_split_nonempty(s.drop_last(), sep);
    }
}

/// Cuts `v` at every occurrence of `sep` (see [`split`]).
pub(crate) fn split_at_char(v: &Vec<char>, sep: char) -> (fields: Vec<Vec<char>>)
    ensures
        texts_of(fields@) == split(v@, sep),
        fields@.len() >= 1,
{
    let mut fields: Vec<Vec<char>> = Vec::new();
    let mut cur: Vec<char> = Vec::new();
    let mut i: usize = 0;
    assert(v@.take(0) =~= Seq::<char>::empty());
    assert(texts_of(fields@).push(cur@) =~= split(v@.take(0), sep));
    while i < v.len()
        invariant
            i <= v.len(),
            texts_of(fields@).push(cur@) == split(v@.take(i as int), sep),
        decreases v.len() - i,
    {
        let c = v[i];
        proof {
            let now = v@.take(i + 1);
            assert(now.drop_last() == v@.take(i as int));
            assert(now.last() == c);
            lemma_split_nonempty(v@.take(i as int), sep);
        }
        let ghost before = texts_of(fields@).push(cur@);
        if c == sep {
            fields.push(cur);
            cur = Vec::new();
            assert(texts_of(fields@).push(cur@) =~= before.push(Seq::<char>::empty()));
        } else {
            cur.push(c);
            assert(texts_of(fields@).push(cur@) =~= before.drop_last().push(before.last().push(c)));
        }
        i += 1;
    }
    assert(v@.take(v.len() as int) == v@);
    let ghost before = texts_of(fields@).push(cur@);
    fields.push(cur);
    assert(texts_of(fields@) =~= before);
    fields
}

/// Whether `c` is one of the ten decimal digits of ASCII.
pub open spec fn is_digit(c: char) -> bool {
    '0' <= c <= '9'
}

/// The number that the decimal digit `c` stands for.
pub open spec fn digit_value(c: char) -> nat {
    (c as u32 - '0' as u32) as nat
}

/// Whether every character of `s` is a decimal digit.
pub open spec fn all_digits(s: Seq<char>) -> bool {
    forall|i: int| 0 <= i < s.len() ==> is_digit(#[trigger] s[i])
}

/// The number that `s` spells in decimal notation; the empty text spells 0.
pub open spec fn decimal_value(s: Seq<char>) -> nat
    decreases s.len(),
{
    if s.len() == 0 {
        0
    } else {
        10 * decimal_value(s.drop_last()) + digit_value(s.last())
    }
}

/// The decimal digit that stands for `d`, a number below ten.
pub open spec fn digit_char(d: nat) -> char {
    (('0' as u32 + d) as u32) as char
}

/// The decimal notation of `n`, without leading zeros.
pub open spec fn decimal_text(n: nat) -> Seq<char>
    decreases n,
{
    if n < 10 {
        seq![digit_char(n)]
    } else {
        decimal_text(n / 10).push(digit_char(n % 10))
    }
}

/// Whether `c` is a hexadecimal digit of ASCII, in either case.
pub open spec fn is_hex_digit(c: char) -> bool {
    ||| '0' <= c <= '9'
    ||| 'a' <= c <= 'f'
    ||| 'A' <= c <= 'F'
}

/// The number that the hexadecimal digit `c` stands for.
pub open spec fn hex_digit_value(c: char) -> nat {
    if '0' <= c <= '9' {
        (c as u32 - '0' as u32) as nat
    } else if 'a' <= c <= 'f' {
        (c as u32 - 'a' as u32 + 10) as nat
    } else {
        (c as u32 - 'A' as u32 + 10) as nat
    }
}

/// Whether every character of `s` is a hexadecimal digit.
pub open spec fn all_hex_digits(s: Seq<char>) -> bool {
    forall|i: int| 0 <= i < s.len() ==> is_hex_digit(#[trigger] s[i])
}

/// The number that `s` spells in hexadecimal notation; the empty text
/// spells 0.
pub open spec fn hex_value(s: Seq<char>) -> nat
    decreases s.len(),
{
    if s.len() == 0 {
        0
    } else {
        16 * hex_value(s.drop_last()) + hex_digit_value(s.last())
    }
}

/// The lower-case hexadecimal digit that stands for `d`, a number below 16.
pub open spec fn hex_digit_char(d: nat) -> char {
    if d < 10 {
        (('0' as u32 + d) as u32) as char
    } else {
        (('a' as u32 + d - 10) as u32) as char
    }
}

/// The hexadecimal notation of `n`, in lower case and without leading zeros.
pub open spec fn hex_text(n: nat) -> Seq<char>
    decreases n,
{
    if n < 16 {
        seq![hex_digit_char(n)]
    } else {
        hex_text(n / 16).push(hex_digit_char(n % 16))
    }
}

/// Whether `c` is a decimal digit.
pub(crate) fn is_decimal_digit(c: char) -> (r: bool)
    ensures
        r == is_digit(c),
{
    '0' <= c && c <= '9'
}

/// The value of the decimal digit `c`.
pub(crate) fn decimal_digit_value(c: char) -> (d: u8)
    requires
        is_digit(c),
    ensures
        d == digit_value(c),
        d < 10,
{
    (c as u32 - '0' as u32) as u8
}

/// The value of the hexadecimal digit `c`, if it is one.
pub(crate) fn hex_digit(c: char) -> (d: Option<u8>)
    ensures
        d is Some == is_hex_digit(c),
        d is Some ==> d->0 == hex_digit_value(c) && d->0 < 16,
{
    if '0' <= c && c <= '9' {
        Some((c as u32 - '0' as u32) as u8)
    } else if 'a' <= c && c <= 'f' {
        Some((c as u32 - 'a' as u32 + 10) as u8)
    } else if 'A' <= c && c <= 'F' {
        Some((c as u32 - 'A' as u32 + 10) as u8)
    } else {
        None
    }
}

/// Appends the decimal notation of `n` to `out`.
pub(crate) fn push_decimal(out: &mut Vec<char>, n: u32)
    ensures
        final(out)@ == old(out)@ + decimal_text(n as nat),
    decreases n,
{
    if n >= 10 {
        push_decimal(out, n / 10);
    }
    let d: u8 = (n % 10) as u8;
    let c: char = (0x30u8 + d) as char;
    assert(c == digit_char((n % 10) as nat));
    let ghost before = out@;
    out.push(c);
    proof {
        if n >= 10 {
            assert(out@ =~= old(out)@ + decimal_text((n / 10) as nat).push(c));
        } else {
            assert(out@ =~= old(out)@ + seq![c]);
        }
    }
}

/// Appends the lower-case hexadecimal notation of `n` to `out`.
pub(crate) fn push_hex(out: &mut Vec<char>, n: u16)
    ensures
        final(out)@ == old(out)@ + hex_text(n as nat),
    decreases n,
{
    if n >= 16 {
        push_hex(out, n / 16);
    }
    let d: u8 = (n % 16) as u8;
    let c: char = if d < 10 {
        (0x30u8 + d) as char
    } else {
        (0x61u8 + (d - 10)) as char
    };
    assert(c == hex_digit_char((n % 16) as nat));
    out.push(c);
    proof {
        if n >= 16 {
            assert(out@ =~= old(out)@ + hex_text((n / 16) as nat).push(c));
        } else {
            assert(out@ =~= old(out)@ + seq![c]);
        }
    }
}

/// The first digits of a text spell no larger number than the whole text.
pub proof fn lemma_decimal_value_grows(s: Seq<char>, n: int)
    requires
        0 <= n <= s.len(),
    ensures
        decimal_value(s.take(n)) <= decimal_value(s),
    decreases s.len() - n,
{
    if n < s.len() {
        assert(s.take(n + 1).drop_last() == s.take(n));
        lemma_decimal_value_grows(s, n + 1);
    } else {
        assert(s.take(n) == s);
    }
}

/// The number that `s` spells as an unsigned 32-bit integer: decimal digits,
/// at least one, which a single `+` may precede, and a value that fits.
pub open spec fn u32_of(s: Seq<char>) -> Option<u32> {
    if s.len() > 0 && s[0] == '+' {
        u32_of_digits(s.skip(1))
    } else {
        u32_of_digits(s)
    }
}

/// The number that `digits` spells as an unsigned 32-bit integer: decimal
/// digits, at least one, and a value that fits.
pub open spec fn u32_of_digits(digits: Seq<char>) -> Option<u32> {
    if digits.len() > 0 && all_digits(digits) && decimal_value(digits) <= u32::MAX {
        Some(decimal_value(digits) as u32)
    } else {
        None
    }
}

/// Reads an unsigned 32-bit integer (see [`u32_of`]).
pub(crate) fn parse_u32(s: &Vec<char>) -> (r: Option<u32>)
    ensures
        r == u32_of(s@),
{
    let start: usize = if s.len() > 0 && s[0] == '+' {
        1
    } else {
        0
    };
    let ghost digits = s@.skip(start as int);
    assert(s@.skip(0) == s@);
    if start == s.len() {
        return None;
    }
    let mut acc: u64 = 0;
    let mut i: usize = start;
    assert(digits.take(0) =~= Seq::<char>::empty());
    while i < s.len()
        invariant
            start <= i <= s.len(),
            digits == s@.skip(start as int),
            u32_of(s@) == u32_of_digits(digits),
            all_digits(digits.take(i - start)),
            acc == decimal_value(digits.take(i - start)),
            acc <= u32::MAX,
        decreases s.len() - i,
    {
        let c = s[i];
        let ghost now = digits.take(i - start + 1);
        proof {
            assert(now.drop_last() == digits.take(i - start));
            assert(now.last() == c);
            assert(digits[i - start] == c);
        }
        if !is_decimal_digit(c) {
            assert(!is_digit(digits[i - start]));
            return None;
        }
        proof {
            assert forall|j: int| 0 <= j < now.len() implies is_digit(#[trigger] now[j]) by {
                if j < i - start {
                    assert(now[j] == digits.take(i - start)[j]);
                }
            }
        }
        acc = acc * 10 + decimal_digit_value(c) as u64;
        if acc > 0xffff_ffff {
            proof {
                lemma_decimal_value_grows(digits, i - start + 1);
            }
            return None;
        }
        i += 1;
    }
    assert(digits.take(s.len() - start) == digits);
    Some(acc as u32)
}

/// Whether `c` is white space: a character with the Unicode property
/// `White_Space`.
pub open spec fn is_whitespace(c: char) -> bool {
    ||| '\u{9}' <= c <= '\u{d}'
    ||| c == ' '
    ||| c == '\u{85}'
    ||| c == '\u{a0}'
    ||| c == '\u{1680}'
    ||| '\u{2000}' <= c <= '\u{200a}'
    ||| c == '\u{2028}'
    ||| c == '\u{2029}'
    ||| c == '\u{202f}'
    ||| c == '\u{205f}'
    ||| c == '\u{3000}'
}

/// Whether `s` holds nothing but white space.
pub open spec fn is_blank(s: Seq<char>) -> bool {
    forall|i: int| 0 <= i < s.len() ==> is_whitespace(#[trigger] s[i])
}

/// Whether `c` is white space (see [`is_whitespace`]).
pub(crate) fn char_is_whitespace(c: char) -> (r: bool)
    ensures
        r == is_whitespace(c),
{
    ('\u{9}' <= c && c <= '\u{d}') || c == ' ' || c == '\u{85}' || c == '\u{a0}' || c == '\u{1680}'
        || ('\u{2000}' <= c && c <= '\u{200a}') || c == '\u{2028}' || c == '\u{2029}' || c
        == '\u{202f}' || c == '\u{205f}' || c == '\u{3000}'
}

/// Whether `s` holds nothing but white space (see [`is_blank`]).
pub(crate) fn text_is_blank(s: &Vec<char>) -> (r: bool)
    ensures
        r == is_blank(s@),
{
    let mut i: usize = 0;
    while i < s.len()
        invariant
            i <= s.len(),
            forall|j: int| 0 <= j < i ==> is_whitespace(#[trigger] s@[j]),
        decreases s.len() - i,
    {
        if !char_is_whitespace(s[i]) {
            return false;
        }
        i += 1;
    }
    true
}

/// Whether `s` begins with `prefix`.
pub open spec fn starts_with(s: Seq<char>, prefix: Seq<char>) -> bool {
    prefix.len() <= s.len() && s.take(prefix.len() as int) == prefix
}

/// Whether `s` ends with `suffix`.
pub open spec fn ends_with(s: Seq<char>, suffix: Seq<char>) -> bool {
    suffix.len() <= s.len() && s.skip(s.len() - suffix.len()) == suffix
}

/// Whether `needle` occurs in `s` as a run of neighbouring characters.
pub open spec fn contains_text(s: Seq<char>, needle: Seq<char>) -> bool {
    exists|i: int|
        0 <= i <= s.len() - needle.len() && #[trigger] s.subrange(i, i + needle.len()) == needle
}

/// `s` without the white space at its start.
pub open spec fn trim_start(s: Seq<char>) -> Seq<char>
    decreases s.len(),
{
    if s.len() > 0 && is_whitespace(s[0]) {
        trim_start(s.skip(1))
    } else {
        s
    }
}

/// `s` without the white space at its end.
pub open spec fn trim_end(s: Seq<char>) -> Seq<char>
    decreases s.len(),
{
    if s.len() > 0 && is_whitespace(s.last()) {
        trim_end(s.drop_last())
    } else {
        s
    }
}

/// `s` without the white space at its start and at its end.
pub open spec fn trim(s: Seq<char>) -> Seq<char> {
    trim_end(trim_start(s))
}

/// The lower-case form of an upper-case letter of ASCII; any other
/// character as it is.
pub open spec fn ascii_lower(c: char) -> char {
    if 'A' <= c <= 'Z' {
        ((c as u32 + 32) as u8) as char
    } else {
        c
    }
}

/// `s` with its upper-case letters of ASCII turned to lower case.
pub open spec fn ascii_lowercase(s: Seq<char>) -> Seq<char> {
    Seq::new(s.len(), |i: int| ascii_lower(s[i]))
}

/// Whether `v`, from index `at` on, goes on with the characters of `p`.
pub(crate) fn matches_at(v: &Vec<char>, at: usize, p: &Vec<char>) -> (r: bool)
    requires
        at <= v.len(),
    ensures
        r == (at + p.len() <= v.len() && v@.subrange(at as int, at + p.len()) == p@),
{
    if p.len() > v.len() - at {
        return false;
    }
    let mut i: usize = 0;
    while i < p.len()
        invariant
            i <= p.len(),
            at + p.len() <= v.len(),
            v@.subrange(at as int, at + i) == p@.take(i as int),
        decreases p.len() - i,
    {
        if v[at + i] != p[i] {
            assert(v@.subrange(at as int, at + p.len())[i as int] != p@[i as int]);
            return false;
        }
        assert(v@.subrange(at as int, at + i + 1) == v@.subrange(at as int, at + i).push(
            v@[at + i],
        ));
        assert(p@.take(i + 1) == p@.take(i as int).push(p@[i as int]));
        i += 1;
    }
    assert(p@.take(p.len() as int) == p@);
    true
}

/// Whether `v` begins with `prefix` (see [`starts_with`]).
pub(crate) fn has_prefix(v: &Vec<char>, prefix: &str) -> (r: bool)
    ensures
        r == starts_with(v@, prefix@),
{
    let p = chars_of(prefix);
    let r = matches_at(v, 0, &p);
    assert(v@.subrange(0, p.len() as int) == v@.take(p.len() as int) || p.len() > v.len());
    r
}

/// Whether `needle` occurs in `v` (see [`contains_text`]).
pub(crate) fn has_text(v: &Vec<char>, needle: &str) -> (r: bool)
    ensures
        r == contains_text(v@, needle@),
{
    let p = chars_of(needle);
    if p.len() > v.len() {
        return false;
    }
    let last: usize = v.len() - p.len();
    let mut i: usize = 0;
    loop
        invariant
            i <= last,
            last == v.len() - p.len(),
            p@ == needle@,
            forall|j: int| 0 <= j < i ==> #[trigger] v@.subrange(j, j + p.len()) != p@,
        decreases last - i,
    {
        if matches_at(v, i, &p) {
            return true;
        }
        if i == last {
            return false;
        }
        i += 1;
    }
}

/// `v` without the white space at its start and at its end (see [`trim`]).
pub(crate) fn trimmed(v: &Vec<char>) -> (r: Vec<char>)
    ensures
        r@ == trim(v@),
{
    let mut start: usize = 0;
    assert(v@.skip(0) == v@);
    while start < v.len() && char_is_whitespace(v[start])
        invariant
            start <= v.len(),
            trim_start(v@) == trim_start(v@.skip(start as int)),
        decreases v.len() - start,
    {
        assert(v@.skip(start as int).skip(1) == v@.skip(start + 1));
        start += 1;
    }
    let mut end: usize = v.len();
    let ghost rest = v@.skip(start as int);
    assert(rest.take(rest.len() as int) == rest);
    while end > start && char_is_whitespace(v[end - 1])
        invariant
            start <= end <= v.len(),
            rest == v@.skip(start as int),
            trim_start(v@) == rest,
            trim_end(rest) == trim_end(rest.take(end - start)),
        decreases end,
    {
        assert(rest.take(end - start).drop_last() == rest.take(end - start - 1));
        end -= 1;
    }
    assert(rest.take(end - start) == v@.subrange(start as int, end as int));
    slice_of(v, start, end)
}

/// `v` without the white space at its start (see [`trim_start`]).
pub(crate) fn trimmed_start(v: &Vec<char>) -> (r: Vec<char>)
    ensures
        r@ == trim_start(v@),
{
    let mut start: usize = 0;
    assert(v@.skip(0) == v@);
    while start < v.len() && char_is_whitespace(v[start])
        invariant
            start <= v.len(),
            trim_start(v@) == trim_start(v@.skip(start as int)),
        decreases v.len() - start,
    {
        assert(v@.skip(start as int).skip(1) == v@.skip(start + 1));
        start += 1;
    }
    assert(v@.subrange(start as int, v.len() as int) == v@.skip(start as int));
    slice_of(v, start, v.len())
}

/// `v` with its upper-case letters of ASCII turned to lower case (see
/// [`ascii_lowercase`]).
pub(crate) fn lowercased(v: &Vec<char>) -> (r: Vec<char>)
    ensures
        r@ == ascii_lowercase(v@),
{
    let mut r: Vec<char> = Vec::new();
    let mut i: usize = 0;
    while i < v.len()
        invariant
            i <= v.len(),
            r@.len() == i,
            forall|j: int| 0 <= j < i ==> #[trigger] r@[j] == ascii_lower(v@[j]),
        decreases v.len() - i,
    {
        let c = v[i];
        let l: char = if 'A' <= c && c <= 'Z' {
            ((c as u32 + 32) as u8) as char
        } else {
            c
        };
        r.push(l);
        i += 1;
    }
    assert(r@ =~= ascii_lowercase(v@));
    r
}

/// Whether the character vector holds the given text.
pub(crate) fn is_text(v: &Vec<char>, text: &str) -> (r: bool)
    ensures
        r == (v@ == text@),
{
    let t = chars_of(text);
    same_text(v, &t)
}

/// A text without the separator is one piece.
pub proof fn lemma_split_whole(s: Seq<char>, sep: char)
    requires
        !s.contains(sep),
    ensures
        split(s, sep) == seq![s],
    decreases s.len(),
{
    if s.len() > 0 {
        let before = s.drop_last();
        assert(!before.contains(sep)) by {
            if before.contains(sep) {
                let i = choose|i: int| 0 <= i < before.len() && before[i] == sep;
                assert(s[i] == sep);
            }
        }
        assert(s.last() != sep) by {
            assert(s[s.len() - 1] == s.last());
        }
        lemma_split_whole(before, sep);
        assert(before.push(s.last()) == s);
        assert(seq![before].drop_last().push(seq![before].last().push(s.last())) =~= seq![s]);
    } else {
        assert(s =~= Seq::<char>::empty());
    }
}

/// A separator and a text without separators, put behind `s`, add that
/// text as one more piece.
pub proof fn lemma_split_push_piece(s: Seq<char>, sep: char, piece: Seq<char>)
    requires
        !piece.contains(sep),
    ensures
        split(s + seq![sep] + piece, sep) == split(s, sep).push(piece),
    decreases piece.len(),
{
    let whole = s + seq![sep] + piece;
    if piece.len() == 0 {
        assert(whole.drop_last() == s);
        assert(whole.last() == sep);
        assert(piece =~= Seq::<char>::empty());
    } else {
        let shorter = piece.drop_last();
        assert(!shorter.contains(sep)) by {
            if shorter.contains(sep) {
                let i = choose|i: int| 0 <= i < shorter.len() && shorter[i] == sep;
                assert(piece[i] == sep);
            }
        }
        assert(piece.last() != sep) by {
            assert(piece[piece.len() - 1] == piece.last());
        }
        lemma_split_push_piece(s, sep, shorter);
        assert(whole.drop_last() == s + seq![sep] + shorter);
        assert(whole.last() == piece.last());
        let before = split(s, sep).push(shorter);
        assert(before.drop_last().push(before.last().push(piece.last())) =~= split(s, sep).push(
            piece,
        )) by {
            assert(shorter.push(piece.last()) == piece);
        }
    }
}

/// The pieces of texts without separators that are joined by separators
/// are those texts.
pub proof fn lemma_split_two(a: Seq<char>, sep: char, b: Seq<char>)
    requires
        !a.contains(sep),
        !b.contains(sep),
    ensures
        split(a + seq![sep] + b, sep) == seq![a, b],
{
    lemma_split_whole(a, sep);
    lemma_split_push_piece(a, sep, b);
    assert(seq![a].push(b) =~= seq![a, b]);
}

/// The decimal notation of a number is made of digits, spells the number,
/// and begins with a zero only where the number is zero.
pub proof fn lemma_decimal_text(n: nat)
    ensures
        decimal_text(n).len() >= 1,
        all_digits(decimal_text(n)),
        decimal_value(decimal_text(n)) == n,
        n > 0 ==> decimal_text(n)[0] != '0',
        n < 10 ==> decimal_text(n).len() == 1,
        10 <= n < 100 ==> decimal_text(n).len() == 2,
        100 <= n < 1000 ==> decimal_text(n).len() == 3,
    decreases n,
{
    if n < 10 {
        let t = seq![digit_char(n)];
        assert(t.drop_last() =~= Seq::<char>::empty());
        assert(decimal_value(t.drop_last()) == 0);
        assert(t.last() == digit_char(n));
    } else {
        lemma_decimal_text(n / 10);
        let before = decimal_text(n / 10);
        let t = before.push(digit_char(n % 10));
        assert(t.drop_last() == before);
        assert(t.last() == digit_char(n % 10));
        assert(t[0] == before[0]);
        assert forall|i: int| 0 <= i < t.len() implies is_digit(#[trigger] t[i]) by {
            if i < before.len() {
                assert(t[i] == before[i]);
            }
        }
    }
}

/// The hexadecimal notation of a number below 65536 is made of one to four
/// hexadecimal digits and spells the number.
pub proof fn lemma_hex_text(n: nat)
    requires
        n < 0x1_0000,
    ensures
        1 <= hex_text(n).len() <= 4,
        all_hex_digits(hex_text(n)),
        hex_value(hex_text(n)) == n,
        n < 0x10 ==> hex_text(n).len() == 1,
        0x10 <= n < 0x100 ==> hex_text(n).len() == 2,
        0x100 <= n < 0x1000 ==> hex_text(n).len() == 3,
    decreases n,
{
    if n < 16 {
        let t = seq![hex_digit_char(n)];
        assert(t.drop_last() =~= Seq::<char>::empty());
        assert(hex_value(t.drop_last()) == 0);
        assert(t.last() == hex_digit_char(n));
    } else {
        lemma_hex_text(n / 16);
        let before = hex_text(n / 16);
        let t = before.push(hex_digit_char(n % 16));
        assert(t.drop_last() == before);
        assert(t.last() == hex_digit_char(n % 16));
        assert forall|i: int| 0 <= i < t.len() implies is_hex_digit(#[trigger] t[i]) by {
            if i < before.len() {
                assert(t[i] == before[i]);
            }
        }
    }
}

/// The pieces of `pieces` put together with the separator `sep` between
/// neighbours.
pub open spec fn join(pieces: Seq<Seq<char>>, sep: char) -> Seq<char>
    decreases pieces.len(),
{
    if pieces.len() == 0 {
        Seq::<char>::empty()
    } else if pieces.len() == 1 {
        pieces[0]
    } else {
        join(pieces.drop_last(), sep) + seq![sep] + pieces.last()
    }
}

/// Cutting a text and joining the pieces gives the text back.
pub proof fn lemma_join_split(s: Seq<char>, sep: char)
    ensures
        join(split(s, sep), sep) == s,
    decreases s.len(),
{
    lemma_split_nonempty(s, sep);
    if s.len() == 0 {
        assert(join(seq![Seq::<char>::empty()], sep) =~= s);
    } else {
        let before = split(s.drop_last(), sep);
        lemma_split_nonempty(s.drop_last(), sep);
        lemma_join_split(s.drop_last(), sep);
        if s.last() == sep {
            let now = before.push(Seq::<char>::empty());
            assert(now.drop_last() == before);
            assert(join(now, sep) =~= join(before, sep) + seq![sep]);
            assert(join(before, sep) + seq![sep] =~= s);
        } else {
            let longer = before.last().push(s.last());
            let now = before.drop_last().push(longer);
            assert(now.drop_last() == before.drop_last());
            assert(now.last() == longer);
            if before.len() == 1 {
                assert(join(before, sep) == before[0]);
                assert(now[0] == longer);
                assert(longer =~= s);
            } else {
                assert(join(before, sep) == join(before.drop_last(), sep) + seq![sep]
                    + before.last());
                assert(join(now, sep) =~= (join(before.drop_last(), sep) + seq![sep]
                    + before.last()).push(s.last()));
                assert(s.drop_last().push(s.last()) =~= s);
            }
        }
    }
}

/// Digits that do not begin with a zero, unless there is one digit only,
/// are the decimal notation of the number that they spell.
pub proof fn lemma_decimal_text_of_value(t: Seq<char>)
    requires
        t.len() >= 1,
        all_digits(t),
        t.len() == 1 || t[0] != '0',
    ensures
        decimal_text(decimal_value(t)) == t,
        t[0] != '0' ==> decimal_value(t) >= 1,
    decreases t.len(),
{
    let before = t.drop_last();
    let c = t.last();
    assert(is_digit(t[t.len() - 1]));
    assert(digit_char(digit_value(c)) == c);
    if t.len() == 1 {
        assert(before.len() == 0);
        assert(decimal_value(before) == 0);
        assert(t =~= seq![c]);
    } else {
        assert(before[0] == t[0]);
        assert(all_digits(before)) by {
            assert forall|i: int| 0 <= i < before.len() implies is_digit(#[trigger] before[i]) by {
                assert(before[i] == t[i]);
            }
        }
        lemma_decimal_text_of_value(before);
        let v = decimal_value(before);
        let n = decimal_value(t);
        assert(n == 10 * v + digit_value(c));
        assert(n / 10 == v);
        assert(n % 10 == digit_value(c));
        assert(before.push(c) =~= t);
    }
}

} // verus!
