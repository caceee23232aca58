use crate::cidr::power_of_two;
use crate::ip::IpAddress;
use crate::text::{
    all_digits, all_hex_digits, chars_of, decimal_digit_value, decimal_text, decimal_value,
    hex_digit, hex_text, hex_value, is_decimal_digit, push_decimal,
    push_hex, split, split_at_char, string_of, texts_of,
};
use vstd::arithmetic::power2::{lemma2_to64, lemma_pow2_adds, lemma_pow2_pos, pow2};
use vstd::prelude::*;

verus! {

/// The byte that `t` spells as one part of a dotted quad: one to three
/// decimal digits, without a leading zero unless the part is the single
/// digit, and no more than 255.
pub open spec fn octet_of(t: Seq<char>) -> Option<u8> {
    if 1 <= t.len() <= 3 && all_digits(t) && (t.len() == 1 || t[0] != '0') && decimal_value(t)
        <= 255 {
        Some(decimal_value(t) as u8)
    } else {
        None
    }
}

/// The IPv4 address that `s` spells: exactly four parts separated by dots,
/// each of them a byte (see [`octet_of`]), the most significant first.
pub open spec fn ipv4_of(s: Seq<char>) -> Option<u32> {
    let f = split(s, '.');
    if f.len() == 4 && octet_of(f[0]) is Some && octet_of(f[1]) is Some && octet_of(f[2]) is Some
        && octet_of(f[3]) is Some {
        Some(
            (octet_of(f[0])->0 * 0x100_0000 + octet_of(f[1])->0 * 0x1_0000 + octet_of(f[2])->0
                * 0x100 + octet_of(f[3])->0) as u32,
        )
    } else {
        None
    }
}

/// The dotted quad that spells the IPv4 address `a`.
pub open spec fn ipv4_text(a: u32) -> Seq<char> {
    decimal_text((a / 0x100_0000) as nat) + seq!['.'] + decimal_text((a / 0x1_0000 % 0x100) as nat)
        + seq!['.'] + decimal_text((a / 0x100 % 0x100) as nat) + seq!['.'] + decimal_text(
        (a % 0x100) as nat,
    )
}

/// The 16-bit group that `t` spells: one to four hexadecimal digits.
pub open spec fn group_of(t: Seq<char>) -> Option<u16> {
    if 1 <= t.len() <= 4 && all_hex_digits(t) {
        Some(hex_value(t) as u16)
    } else {
        None
    }
}

/// The groups that a list of colon-separated fields spells: one group per
/// field, except that the last field, where `v4_last` allows it, may be a
/// dotted quad, which stands for two groups.
pub open spec fn groups_of(fields: Seq<Seq<char>>, v4_last: bool) -> Option<Seq<u16>>
    decreases fields.len(),
{
    if fields.len() == 0 {
        Some(Seq::<u16>::empty())
    } else {
        match groups_of(fields.drop_last(), false) {
            None => None,
            Some(head) => match group_of(fields.last()) {
                Some(g) => Some(head.push(g)),
                None => if v4_last && ipv4_of(fields.last()) is Some {
                    let a = ipv4_of(fields.last())->0;
                    Some(head.push((a / 0x1_0000) as u16).push((a % 0x1_0000) as u16))
                } else {
                    None
                },
            },
        }
    }
}

/// The number whose digits in base 65536 are `groups`, the most significant
/// first.
pub open spec fn groups_value(groups: Seq<u16>) -> nat
    decreases groups.len(),
{
    if groups.len() == 0 {
        0
    } else {
        groups_value(groups.drop_last()) * 0x1_0000 + groups.last() as nat
    }
}

/// `n` groups that are all zero.
pub open spec fn zero_groups(n: nat) -> Seq<u16> {
    Seq::new(n, |i: int| 0u16)
}

/// Whether `i` is the index of the first empty field of `fields`.
pub open spec fn is_first_empty(fields: Seq<Seq<char>>, i: int) -> bool {
    &&& 0 <= i < fields.len()
    &&& fields[i].len() == 0
    &&& forall|j: int| 0 <= j < i ==> (#[trigger] fields[j]).len() != 0
}

/// The IPv6 address that `s` spells.
///
/// The text is cut at its colons. Without an empty field it must hold eight
/// groups, the last two of which may be written as a dotted quad. Otherwise
/// it holds one `::`, which stands for the zero groups that are missing:
/// before it come groups only, after it groups that may end in a dotted
/// quad, and together they are at most seven. Where `::` stands at the start
/// or at the end of the text the cut leaves one more empty field there.
pub open spec fn ipv6_of(s: Seq<char>) -> Option<u128> {
    let f = split(s, ':');
    if !exists|i: int| is_first_empty(f, i) {
        match groups_of(f, true) {
            Some(g) => if g.len() == 8 {
                Some(groups_value(g) as u128)
            } else {
                None
            },
            None => None,
        }
    } else {
        let i = choose|i: int| is_first_empty(f, i);
        let gap = if i == 0 {
            1
        } else {
            i
        };
        if gap + 1 >= f.len() || f[gap].len() != 0 {
            None
        } else {
            let head = if i == 0 {
                Seq::<Seq<char>>::empty()
            } else {
                f.take(i)
            };
            let rest = f.skip(gap + 1);
            let tail = if rest.len() == 1 && rest[0].len() == 0 {
                Seq::<Seq<char>>::empty()
            } else {
                rest
            };
            match (groups_of(head, false), groups_of(tail, true)) {
                (Some(h), Some(t)) => if h.len() + t.len() <= 7 {
                    Some(
                        groups_value(h + zero_groups((8 - h.len() - t.len()) as nat) + t) as u128,
                    )
                } else {
                    None
                },
                _ => None,
            }
        }
    }
}

/// The address that `s` spells: an IPv4 address as a dotted quad, or else
/// an IPv6 address.
pub open spec fn ip_of(s: Seq<char>) -> Option<IpAddress> {
    match ipv4_of(s) {
        Some(a) => Some(IpAddress::V4(a)),
        None => match ipv6_of(s) {
            Some(a) => Some(IpAddress::V6(a)),
            None => None,
        },
    }
}

/// The eight 16-bit groups of the IPv6 address `a`, the most significant
/// first.
pub open spec fn groups_of_value(a: u128) -> Seq<u16> {
    Seq::new(8, |i: int| (a as nat / pow2((16 * (7 - i)) as nat) % 0x1_0000) as u16)
}

/// The groups of `groups` in lower-case hexadecimal notation without
/// leading zeros, with a colon between neighbours.
pub open spec fn groups_text(groups: Seq<u16>) -> Seq<char>
    decreases groups.len(),
{
    if groups.len() == 0 {
        Seq::<char>::empty()
    } else if groups.len() == 1 {
        hex_text(groups[0] as nat)
    } else {
        groups_text(groups.drop_last()) + seq![':'] + hex_text(groups.last() as nat)
    }
}

/// Whether the `len` groups of `groups` from index `start` on are all zero.
pub open spec fn zero_run(groups: Seq<u16>, start: int, len: int) -> bool {
    &&& 0 <= start
    &&& 0 <= len
    &&& start + len <= groups.len()
    &&& forall|j: int| start <= j < start + len ==> #[trigger] groups[j] == 0
}

/// Whether the run of `len` zero groups from `start` on is the one that the
/// text of an address leaves out: no run of zero groups is longer, and no
/// run of the same length starts before it.
pub open spec fn longest_zero_run(groups: Seq<u16>, start: int, len: int) -> bool {
    &&& zero_run(groups, start, len)
    &&& forall|s: int, l: int| #[trigger]
        zero_run(groups, s, l) ==> l < len || (l == len && start <= s)
}

/// The run of zero groups that the text of an address leaves out, as its
/// first index and its length (see [`longest_zero_run`]).
pub open spec fn elided_run(groups: Seq<u16>) -> (int, int) {
    choose|run: (int, int)| longest_zero_run(groups, run.0, run.1)
}

/// The text of the IPv6 address with the given eight groups in which the
/// run of `len` zero groups from `start` on, if it is longer than one
/// group, is written as `::`.
pub open spec fn ipv6_text_eliding(groups: Seq<u16>, start: int, len: int) -> Seq<char> {
    if len > 1 {
        groups_text(groups.take(start)) + seq![':', ':'] + groups_text(groups.skip(start + len))
    } else {
        groups_text(groups)
    }
}

/// The text that spells the IPv6 address `a`.
///
/// An address that carries an IPv4 address behind the prefix `::ffff:` is
/// written with that prefix and a dotted quad. Any other address is written
/// as its eight groups, with the longest run of zero groups (the first of
/// them, where several are equally long) left out if it holds more than
/// one group.
pub open spec fn ipv6_text(a: u128) -> Seq<char> {
    if a / 0x1_0000_0000 == 0xffff {
        seq![':', ':', 'f', 'f', 'f', 'f', ':'] + ipv4_text((a % 0x1_0000_0000) as u32)
    } else {
        let groups = groups_of_value(a);
        let run = elided_run(groups);
        ipv6_text_eliding(groups, run.0, run.1)
    }
}

/// The text that spells the address `ip`.
pub open spec fn ip_text(ip: IpAddress) -> Seq<char> {
    match ip {
        IpAddress::V4(a) => ipv4_text(a),
        IpAddress::V6(a) => ipv6_text(a),
    }
}

/// Up to three digits spell a number below one thousand: one digit a number
/// below 10, and two digits a number below 100.
pub proof fn lemma_short_decimal_value(t: Seq<char>)
    requires
        all_digits(t),
        t.len() <= 3,
    ensures
        t.len() == 0 ==> decimal_value(t) == 0,
        t.len() == 1 ==> decimal_value(t) < 10,
        t.len() == 2 ==> decimal_value(t) < 100,
        decimal_value(t) < 1000,
    decreases t.len(),
{
    if t.len() > 0 {
        assert(crate::text::is_digit(t[t.len() - 1]));
        assert(all_digits(t.drop_last())) by {
            assert forall|i: int| 0 <= i < t.drop_last().len() implies crate::text::is_digit(
                #[trigger] t.drop_last()[i],
            ) by {
                assert(t.drop_last()[i] == t[i]);
            }
        }
        lemma_short_decimal_value(t.drop_last());
    }
}

/// Reads one part of a dotted quad (see [`octet_of`]).
pub(crate) fn parse_octet(t: &Vec<char>) -> (r: Option<u8>)
    ensures
        r == octet_of(t@),
{
    let n = t.len();
    if n < 1 || n > 3 {
        return None;
    }
    let mut acc: u32 = 0;
    let mut i: usize = 0;
    assert(t@.take(0) =~= Seq::<char>::empty());
    while i < n
        invariant
            n == t.len(),
            1 <= n <= 3,
            i <= n,
            all_digits(t@.take(i as int)),
            acc == decimal_value(t@.take(i as int)),
            acc < 1000,
        decreases n - i,
    {
        let c = t[i];
        if !is_decimal_digit(c) {
            assert(!crate::text::is_digit(t@[i as int]));
            return None;
        }
        let d = decimal_digit_value(c);
        proof {
            let now = t@.take(i + 1);
            assert(now.drop_last() == t@.take(i as int));
            assert(now.last() == c);
            assert forall|j: int| 0 <= j < now.len() implies crate::text::is_digit(
                #[trigger] now[j],
            ) by {
                if j < i {
                    assert(now[j] == t@.take(i as int)[j]);
                }
            }
            lemma_short_decimal_value(now);
        }
        acc = acc * 10 + d as u32;
        i += 1;
    }
    assert(t@.take(n as int) == t@);
    if n > 1 && t[0] == '0' {
        return None;
    }
    if acc > 255 {
        return None;
    }
    Some(acc as u8)
}

/// Reads a dotted quad (see [`ipv4_of`]).
pub(crate) fn parse_ipv4(s: &Vec<char>) -> (r: Option<u32>)
    ensures
        r == ipv4_of(s@),
{
    let fields = split_at_char(s, '.');
    if fields.len() != 4 {
        return None;
    }
    proof {
        assert(texts_of(fields@)[0] == fields@[0]@);
        assert(texts_of(fields@)[1] == fields@[1]@);
        assert(texts_of(fields@)[2] == fields@[2]@);
        assert(texts_of(fields@)[3] == fields@[3]@);
    }
    let a = match parse_octet(&fields[0]) {
        Some(a) => a,
        None => {
            return None;
        },
    };
    let b = match parse_octet(&fields[1]) {
        Some(b) => b,
        None => {
            return None;
        },
    };
    let c = match parse_octet(&fields[2]) {
        Some(c) => c,
        None => {
            return None;
        },
    };
    let d = match parse_octet(&fields[3]) {
        Some(d) => d,
        None => {
            return None;
        },
    };
    Some(a as u32 * 0x100_0000 + b as u32 * 0x1_0000 + c as u32 * 0x100 + d as u32)
}

/// Appends the dotted quad of `a` to `out`.
pub(crate) fn push_ipv4(out: &mut Vec<char>, a: u32)
    ensures
        final(out)@ == old(out)@ + ipv4_text(a),
{
    push_decimal(out, a / 0x100_0000);
    out.push('.');
    push_decimal(out, a / 0x1_0000 % 0x100);
    out.push('.');
    push_decimal(out, a / 0x100 % 0x100);
    out.push('.');
    push_decimal(out, a % 0x100);
    assert(out@ =~= old(out)@ + ipv4_text(a));
}

/// Only one run of zero groups is the longest and the first of its length.
pub proof fn lemma_longest_zero_run_unique(groups: Seq<u16>, start: int, len: int)
    requires
        longest_zero_run(groups, start, len),
    ensures
        elided_run(groups) == (start, len),
{
    let witness = (start, len);
    assert(longest_zero_run(groups, witness.0, witness.1));
    let run = elided_run(groups);
    assert(longest_zero_run(groups, run.0, run.1));
    assert(zero_run(groups, run.0, run.1));
    assert(zero_run(groups, start, len));
}

/// Reads one group of an IPv6 address (see [`group_of`]).
pub(crate) fn parse_group(t: &Vec<char>) -> (r: Option<u16>)
    ensures
        r == group_of(t@),
{
    let n = t.len();
    if n < 1 || n > 4 {
        return None;
    }
    let mut acc: u32 = 0;
    let mut i: usize = 0;
    assert(t@.take(0) =~= Seq::<char>::empty());
    while i < n
        invariant
            n == t.len(),
            1 <= n <= 4,
            i <= n,
            all_hex_digits(t@.take(i as int)),
            acc == hex_value(t@.take(i as int)),
            i == 0 ==> acc == 0,
            i == 1 ==> acc < 0x10,
            i == 2 ==> acc < 0x100,
            i == 3 ==> acc < 0x1000,
            i == 4 ==> acc < 0x1_0000,
        decreases n - i,
    {
        let c = t[i];
        let d = match hex_digit(c) {
            Some(d) => d,
            None => {
                assert(!crate::text::is_hex_digit(t@[i as int]));
                return None;
            },
        };
        proof {
            let now = t@.take(i + 1);
            assert(now.drop_last() == t@.take(i as int));
            assert(now.last() == c);
            assert forall|j: int| 0 <= j < now.len() implies crate::text::is_hex_digit(
                #[trigger] now[j],
            ) by {
                if j < i {
                    assert(now[j] == t@.take(i as int)[j]);
                }
            }
        }
        acc = acc * 16 + d as u32;
        i += 1;
    }
    assert(t@.take(n as int) == t@);
    Some(acc as u16)
}

/// Where the fields before some field do not spell groups, the whole list
/// does not either.
pub proof fn lemma_groups_prefix_fails(fields: Seq<Seq<char>>, k: int, v4_last: bool)
    requires
        0 <= k < fields.len(),
        groups_of(fields.take(k), false) is None,
    ensures
        groups_of(fields, v4_last) is None,
    decreases fields.len(),
{
    if k == fields.len() - 1 {
        assert(fields.drop_last() == fields.take(k));
    } else {
        assert(fields.drop_last().take(k) == fields.take(k));
        lemma_groups_prefix_fails(fields.drop_last(), k, false);
    }
}

/// Reads the fields of `fields` from index `from` up to, not including,
/// `to` as groups (see [`groups_of`]).
pub(crate) fn parse_groups(fields: &Vec<Vec<char>>, from: usize, to: usize, v4_last: bool) -> (r: Option<
    Vec<u16>,
>)
    requires
        from <= to <= fields.len(),
    ensures
        match r {
            Some(g) => groups_of(texts_of(fields@).subrange(from as int, to as int), v4_last)
                == Some(g@),
            None => groups_of(texts_of(fields@).subrange(from as int, to as int), v4_last) is None,
        },
{
    let ghost all = texts_of(fields@).subrange(from as int, to as int);
    let mut groups: Vec<u16> = Vec::new();
    let mut i: usize = from;
    assert(all.take(0) =~= Seq::<Seq<char>>::empty());
    while i < to
        invariant
            from <= i <= to <= fields.len(),
            all == texts_of(fields@).subrange(from as int, to as int),
            groups_of(all.take(i - from), false) == Some(groups@),
        decreases to - i,
    {
        let ghost now = all.take(i - from + 1);
        proof {
            assert(now.drop_last() == all.take(i - from));
            assert(now.last() == fields@[i as int]@);
        }
        match parse_group(&fields[i]) {
            Some(g) => {
                groups.push(g);
            },
            None => {
                if v4_last && i + 1 == to {
                    proof {
                        assert(now == all);
                    }
                    match parse_ipv4(&fields[i]) {
                        Some(a) => {
                            groups.push((a / 0x1_0000) as u16);
                            groups.push((a % 0x1_0000) as u16);
                            return Some(groups);
                        },
                        None => {
                            return None;
                        },
                    }
                } else {
                    proof {
                        assert(groups_of(now, false) is None);
                        if i + 1 == to {
                            assert(now == all);
                        } else {
                            lemma_groups_prefix_fails(all, i - from + 1, v4_last);
                        }
                    }
                    return None;
                }
            },
        }
        i += 1;
    }
    proof {
        assert(all.take(to - from) == all);
        if all.len() > 0 {
            // Every field was a plain group, whatever the last one may be.
            assert(group_of(all.last()) is Some) by {
                assert(all.take(to - from - 1) == all.drop_last());
            }
        }
    }
    Some(groups)
}

/// Eight groups spell a number below two to the power 128.
pub proof fn lemma_groups_value_bound(groups: Seq<u16>)
    requires
        groups.len() <= 8,
    ensures
        groups_value(groups) < pow2(16 * groups.len()),
    decreases groups.len(),
{
    lemma2_to64();
    if groups.len() > 0 {
        lemma_groups_value_bound(groups.drop_last());
        lemma_pow2_adds(16 * (groups.len() - 1) as nat, 16);
        let p = pow2(16 * (groups.len() - 1) as nat) as int;
        let v = groups_value(groups.drop_last()) as int;
        assert(v * 0x1_0000 + 0x1_0000 <= p * 0x1_0000) by (nonlinear_arith)
            requires
                v + 1 <= p,
        ;
    }
}

/// The number that eight groups spell (see [`groups_value`]).
pub(crate) fn value_of_groups(groups: &Vec<u16>) -> (a: u128)
    requires
        groups.len() == 8,
    ensures
        a == groups_value(groups@),
{
    let mut a: u128 = 0;
    let mut i: usize = 0;
    assert(groups@.take(0) =~= Seq::<u16>::empty());
    while i < 8
        invariant
            groups.len() == 8,
            i <= 8,
            a == groups_value(groups@.take(i as int)),
        decreases 8 - i,
    {
        proof {
            let now = groups@.take(i + 1);
            assert(now.drop_last() == groups@.take(i as int));
            lemma_groups_value_bound(now);
            crate::cidr::lemma_pow2_monotonic(16 * (i + 1) as nat, 128);
            crate::cidr::lemma_family_limits();
        }
        a = a * 0x1_0000 + groups[i] as u128;
        i += 1;
    }
    assert(groups@.take(8) == groups@);
    a
}

/// Reads an IPv6 address (see [`ipv6_of`]).
pub(crate) fn parse_ipv6(s: &Vec<char>) -> (r: Option<u128>)
    ensures
        r == ipv6_of(s@),
{
    let fields = split_at_char(s, ':');
    let ghost f = texts_of(fields@);
    let n = fields.len();
    // The first empty field, if there is one.
    let mut i: usize = 0;
    while i < n && fields[i].len() != 0
        invariant
            n == fields.len(),
            i <= n,
            f == texts_of(fields@),
            forall|j: int| 0 <= j < i ==> (#[trigger] f[j]).len() != 0,
        decreases n - i,
    {
        i += 1;
    }
    if i == n {
        assert(!exists|i: int| is_first_empty(f, i));
        assert(f.subrange(0, n as int) == f);
        return match parse_groups(&fields, 0, n, true) {
            Some(g) => if g.len() == 8 {
                Some(value_of_groups(&g))
            } else {
                None
            },
            None => None,
        };
    }
    proof {
        assert(is_first_empty(f, i as int));
        let chosen = choose|k: int| is_first_empty(f, k);
        assert(is_first_empty(f, chosen));
        assert(chosen == i);
    }
    let gap: usize = if i == 0 {
        1
    } else {
        i
    };
    if gap + 1 >= n || fields[gap].len() != 0 {
        return None;
    }
    let head_end: usize = if i == 0 {
        0
    } else {
        i
    };
    let tail_start: usize = if n - (gap + 1) == 1 && fields[gap + 1].len() == 0 {
        n
    } else {
        gap + 1
    };
    proof {
        let rest = f.skip(gap + 1);
        assert(rest =~= f.subrange(gap + 1, n as int));
        if i == 0 {
            assert(f.subrange(0, 0) =~= Seq::<Seq<char>>::empty());
        } else {
            assert(f.subrange(0, head_end as int) =~= f.take(i as int));
        }
        assert(f.subrange(n as int, n as int) =~= Seq::<Seq<char>>::empty());
    }
    let head = match parse_groups(&fields, 0, head_end, false) {
        Some(h) => h,
        None => {
            return None;
        },
    };
    let tail = match parse_groups(&fields, tail_start, n, true) {
        Some(t) => t,
        None => {
            return None;
        },
    };
    if head.len() > 7 || tail.len() > 7 - head.len() {
        return None;
    }
    let missing: usize = 8 - head.len() - tail.len();
    let mut groups: Vec<u16> = Vec::new();
    let mut k: usize = 0;
    while k < head.len()
        invariant
            k <= head.len(),
            groups@ == head@.take(k as int),
        decreases head.len() - k,
    {
        groups.push(head[k]);
        k += 1;
    }
    k = 0;
    while k < missing
        invariant
            k <= missing,
            groups@ == head@ + zero_groups(k as nat),
        decreases missing - k,
    {
        groups.push(0);
        assert(groups@ =~= head@ + zero_groups((k + 1) as nat));
        k += 1;
    }
    k = 0;
    while k < tail.len()
        invariant
            k <= tail.len(),
            groups@ == head@ + zero_groups(missing as nat) + tail@.take(k as int),
        decreases tail.len() - k,
    {
        groups.push(tail[k]);
        assert(groups@ =~= head@ + zero_groups(missing as nat) + tail@.take(k + 1));
        k += 1;
    }
    assert(tail@.take(tail.len() as int) == tail@);
    Some(value_of_groups(&groups))
}

/// Reads an address of either family (see [`ip_of`]).
pub(crate) fn parse_ip(s: &Vec<char>) -> (r: Option<IpAddress>)
    ensures
        r == ip_of(s@),
{
    match parse_ipv4(s) {
        Some(a) => Some(IpAddress::V4(a)),
        None => match parse_ipv6(s) {
            Some(a) => Some(IpAddress::V6(a)),
            None => None,
        },
    }
}

/// The eight groups of an IPv6 address (see [`groups_of_value`]).
pub(crate) fn groups_of_address(a: u128) -> (groups: Vec<u16>)
    ensures
        groups@ == groups_of_value(a),
{
    let mut groups: Vec<u16> = Vec::new();
    let mut i: u8 = 0;
    while i < 8
        invariant
            i <= 8,
            groups@.len() == i,
            forall|j: int| 0 <= j < i ==> #[trigger] groups@[j] == groups_of_value(a)[j],
        decreases 8 - i,
    {
        let divisor: u128 = power_of_two(16 * (7 - i));
        proof {
            lemma_pow2_pos((16 * (7 - i)) as nat);
        }
        let g: u16 = (a / divisor % 0x1_0000) as u16;
        groups.push(g);
        i += 1;
    }
    assert(groups@ =~= groups_of_value(a));
    groups
}

/// Finds the run of zero groups that the text of an address leaves out
/// (see [`longest_zero_run`]); the result is its first index and its length.
pub(crate) fn find_elided_run(groups: &Vec<u16>) -> (run: (usize, usize))
    requires
        groups.len() == 8,
    ensures
        longest_zero_run(groups@, run.0 as int, run.1 as int),
{
    let mut best_start: usize = 0;
    let mut best_len: usize = 0;
    let mut cur_len: usize = 0;
    let mut i: usize = 0;
    while i < 8
        invariant
            groups.len() == 8,
            i <= 8,
            cur_len <= i,
            best_start + best_len <= i,
            zero_run(groups@, best_start as int, best_len as int),
            zero_run(groups@, i - cur_len, cur_len as int),
            cur_len < i ==> groups@[i - cur_len - 1] != 0,
            cur_len <= best_len,
            best_len == 0 ==> best_start == 0,
            forall|s: int, l: int| #[trigger]
                zero_run(groups@, s, l) && s + l <= i ==> l < best_len || (l == best_len
                    && best_start <= s),
        decreases 8 - i,
    {
        let ghost old_best_start = best_start;
        let ghost old_best_len = best_len;
        let ghost old_cur = cur_len;
        if groups[i] == 0 {
            cur_len += 1;
            if cur_len > best_len {
                best_start = i + 1 - cur_len;
                best_len = cur_len;
            }
        } else {
            cur_len = 0;
        }
        proof {
            assert forall|s: int, l: int| #[trigger]
                zero_run(groups@, s, l) && s + l <= i + 1 implies l < best_len || (l == best_len
                && best_start <= s) by {
                if s + l <= i {
                    assert(l < old_best_len || (l == old_best_len && old_best_start <= s));
                } else if l > 0 {
                    // The run ends at index `i`, so it is part of the current run.
                    assert(groups@[i as int] == 0);
                    if l > old_cur + 1 {
                        assert(groups@[i - old_cur - 1] == 0);
                    }
                }
            }
        }
        i += 1;
    }
    (best_start, best_len)
}

/// Appends the groups of `groups` from index `from` up to, not including,
/// `to` to `out`, in hexadecimal notation with colons between them.
pub(crate) fn push_groups(out: &mut Vec<char>, groups: &Vec<u16>, from: usize, to: usize)
    requires
        from <= to <= groups.len(),
    ensures
        final(out)@ == old(out)@ + groups_text(groups@.subrange(from as int, to as int)),
{
    let ghost part = groups@.subrange(from as int, to as int);
    let mut i: usize = from;
    assert(part.take(0) =~= Seq::<u16>::empty());
    assert(out@ =~= old(out)@ + groups_text(part.take(0)));
    while i < to
        invariant
            from <= i <= to <= groups.len(),
            part == groups@.subrange(from as int, to as int),
            out@ == old(out)@ + groups_text(part.take(i - from)),
        decreases to - i,
    {
        let ghost before = out@;
        let ghost now = part.take(i - from + 1);
        proof {
            assert(now.drop_last() == part.take(i - from));
            assert(now.last() == groups@[i as int]);
        }
        if i > from {
            out.push(':');
        }
        push_hex(out, groups[i]);
        proof {
            if i > from {
                assert(out@ =~= old(out)@ + (groups_text(now.drop_last()) + seq![':'] + hex_text(
                    now.last() as nat,
                )));
            } else {
                assert(now.len() == 1);
                assert(now[0] == now.last());
                assert(groups_text(part.take(0)) =~= Seq::<char>::empty());
                assert(out@ =~= old(out)@ + hex_text(now[0] as nat));
            }
        }
        i += 1;
    }
    assert(part.take(to - from) == part);
}

/// Appends the text of the IPv6 address `a` to `out`.
pub(crate) fn push_ipv6(out: &mut Vec<char>, a: u128)
    ensures
        final(out)@ == old(out)@ + ipv6_text(a),
{
    if a / 0x1_0000_0000 == 0xffff {
        out.push(':');
        out.push(':');
        out.push('f');
        out.push('f');
        out.push('f');
        out.push('f');
        out.push(':');
        push_ipv4(out, (a % 0x1_0000_0000) as u32);
        assert(out@ =~= old(out)@ + ipv6_text(a));
    } else {
        let groups = groups_of_address(a);
        let (start, len) = find_elided_run(&groups);
        proof {
            lemma_longest_zero_run_unique(groups@, start as int, len as int);
        }
        if len > 1 {
            push_groups(out, &groups, 0, start);
            out.push(':');
            out.push(':');
            push_groups(out, &groups, start + len, 8);
            proof {
                assert(groups@.subrange(0, start as int) =~= groups@.take(start as int));
                assert(groups@.subrange(start + len, 8) =~= groups@.skip(start + len));
                assert(out@ =~= old(out)@ + ipv6_text_eliding(groups@, start as int, len as int));
            }
        } else {
            push_groups(out, &groups, 0, 8);
            assert(groups@.subrange(0, 8) =~= groups@);
        }
    }
}

/// Appends the text of the address `ip` to `out`.
pub(crate) fn push_ip(out: &mut Vec<char>, ip: IpAddress)
    ensures
        final(out)@ == old(out)@ + ip_text(ip),
{
    match ip {
        IpAddress::V4(a) => push_ipv4(out, a),
        IpAddress::V6(a) => push_ipv6(out, a),
    }
}

impl IpAddress {
    /// Reads an address from its text.
    ///
    /// An IPv4 address is a dotted quad of four decimal numbers up to 255,
    /// none with a leading zero. An IPv6 address is made of groups of up to
    /// four hexadecimal digits separated by colons, where `::` may stand
    /// once for a run of zero groups and the last two groups may be written
    /// as a dotted quad. Any other text, also one with blanks around the
    /// address, gives `None`.
    pub fn parse(s: &str) -> (r: Option<IpAddress>)
        ensures
            r == ip_of(s@),
    {
        let chars = chars_of(s);
        parse_ip(&chars)
    }

    /// The text of the address: a dotted quad for IPv4, and for IPv6 the
    /// groups in lower-case hexadecimal notation with the longest run of
    /// zero groups written as `::`.
    pub fn to_text(&self) -> (s: String)
        ensures
            s@ == ip_text(*self),
    {
        let mut out: Vec<char> = Vec::new();
        push_ip(&mut out, *self);
        string_of(&out)
    }
}

} // verus!
