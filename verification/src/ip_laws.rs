use crate::cidr::{
    cidr_of, cidr_text, cidr_texts, cover_of, lemma_cover_of, lemma_tiling_partitions, CidrBlock,
};
use crate::ip::IpAddress;
use crate::ip_text::{
    elided_run, group_of, groups_of, groups_of_value, groups_text, groups_value, ip_of, ip_text,
    ipv4_of, ipv4_text, ipv6_of, ipv6_text, ipv6_text_eliding, is_first_empty,
    lemma_groups_value_bound, longest_zero_run, octet_of, zero_groups, zero_run,
};
use crate::text::{
    all_digits, all_hex_digits, decimal_text, decimal_value, hex_text, is_digit, is_hex_digit,
    join, lemma_decimal_text, lemma_decimal_text_of_value, lemma_hex_text, lemma_join_split,
    lemma_split_push_piece, lemma_split_whole, split,
};
use vstd::arithmetic::div_mod::{
    lemma_basic_div_specific_divisor, lemma_div_denominator, lemma_fundamental_div_mod,
};
use vstd::arithmetic::power2::{lemma2_to64, lemma_pow2_adds, lemma_pow2_pos, pow2};
use vstd::prelude::*;

verus! {

/// A text of decimal digits holds no character that is no digit.
pub proof fn lemma_digits_hold_no(t: Seq<char>, c: char)
    requires
        all_digits(t),
        !is_digit(c),
    ensures
        !t.contains(c),
{
    if t.contains(c) {
        let i = choose|i: int| 0 <= i < t.len() && t[i] == c;
        assert(is_digit(t[i]));
    }
}

/// A text of hexadecimal digits holds no character that is no such digit.
pub proof fn lemma_hex_digits_hold_no(t: Seq<char>, c: char)
    requires
        all_hex_digits(t),
        !is_hex_digit(c),
    ensures
        !t.contains(c),
{
    if t.contains(c) {
        let i = choose|i: int| 0 <= i < t.len() && t[i] == c;
        assert(is_hex_digit(t[i]));
    }
}

/// Two texts without a character, put together, are without it.
pub proof fn lemma_concat_holds_no(a: Seq<char>, b: Seq<char>, c: char)
    requires
        !a.contains(c),
        !b.contains(c),
    ensures
        !(a + b).contains(c),
{
    if (a + b).contains(c) {
        let i = choose|i: int| 0 <= i < (a + b).len() && (a + b)[i] == c;
        if i < a.len() {
            assert(a[i] == c);
        } else {
            assert(b[i - a.len()] == c);
        }
    }
}

/// A byte is read back from its decimal notation.
pub proof fn lemma_octet_round_trip(n: u8)
    ensures
        octet_of(decimal_text(n as nat)) == Some(n),
{
    lemma_decimal_text(n as nat);
}

/// An IPv4 address is read back from its text.
pub proof fn lemma_ipv4_round_trip(a: u32)
    ensures
        ipv4_of(ipv4_text(a)) == Some(a),
        ipv4_text(a).len() >= 7,
        !ipv4_text(a).contains(':'),
{
    let o0 = (a / 0x100_0000) as u8;
    let o1 = (a / 0x1_0000 % 0x100) as u8;
    let o2 = (a / 0x100 % 0x100) as u8;
    let o3 = (a % 0x100) as u8;
    let d0 = decimal_text(o0 as nat);
    let d1 = decimal_text(o1 as nat);
    let d2 = decimal_text(o2 as nat);
    let d3 = decimal_text(o3 as nat);
    lemma_decimal_text(o0 as nat);
    lemma_decimal_text(o1 as nat);
    lemma_decimal_text(o2 as nat);
    lemma_decimal_text(o3 as nat);
    lemma_digits_hold_no(d0, '.');
    lemma_digits_hold_no(d1, '.');
    lemma_digits_hold_no(d2, '.');
    lemma_digits_hold_no(d3, '.');
    lemma_split_whole(d0, '.');
    lemma_split_push_piece(d0, '.', d1);
    lemma_split_push_piece(d0 + seq!['.'] + d1, '.', d2);
    lemma_split_push_piece(d0 + seq!['.'] + d1 + seq!['.'] + d2, '.', d3);
    let f = split(ipv4_text(a), '.');
    assert(f =~= seq![d0, d1, d2, d3]);
    lemma_octet_round_trip(o0);
    lemma_octet_round_trip(o1);
    lemma_octet_round_trip(o2);
    lemma_octet_round_trip(o3);
    assert(o0 * 0x100_0000 + o1 * 0x1_0000 + o2 * 0x100 + o3 == a);
    // No colon among digits and dots.
    lemma_digits_hold_no(d0, ':');
    lemma_digits_hold_no(d1, ':');
    lemma_digits_hold_no(d2, ':');
    lemma_digits_hold_no(d3, ':');
    let dot = seq!['.'];
    assert(!dot.contains(':')) by {
        if dot.contains(':') {
            let i = choose|i: int| 0 <= i < dot.len() && dot[i] == ':';
            assert(dot[i] == '.');
        }
    }
    lemma_concat_holds_no(d0, dot, ':');
    lemma_concat_holds_no(d0 + dot, d1, ':');
    lemma_concat_holds_no(d0 + dot + d1, dot, ':');
    lemma_concat_holds_no(d0 + dot + d1 + dot, d2, ':');
    lemma_concat_holds_no(d0 + dot + d1 + dot + d2, dot, ':');
    lemma_concat_holds_no(d0 + dot + d1 + dot + d2 + dot, d3, ':');
}

/// Four pieces joined are the pieces with three separators between them.
pub proof fn lemma_join_four(f: Seq<Seq<char>>, sep: char)
    requires
        f.len() == 4,
    ensures
        join(f, sep) == f[0] + seq![sep] + f[1] + seq![sep] + f[2] + seq![sep] + f[3],
{
    let f3 = f.drop_last();
    let f2 = f3.drop_last();
    let f1 = f2.drop_last();
    assert(f.last() == f[3]);
    assert(f3.last() == f[2]);
    assert(f2.last() == f[1]);
    assert(f1[0] == f[0]);
    assert(join(f1, sep) == f[0]);
    assert(join(f2, sep) == f[0] + seq![sep] + f[1]);
    assert(join(f3, sep) == f[0] + seq![sep] + f[1] + seq![sep] + f[2]);
}

/// The four bytes of an address are found again in its value.
pub proof fn lemma_bytes_of_value(o0: nat, o1: nat, o2: nat, o3: nat)
    requires
        o0 < 0x100,
        o1 < 0x100,
        o2 < 0x100,
        o3 < 0x100,
    ensures
        ({
            let a = o0 * 0x100_0000 + o1 * 0x1_0000 + o2 * 0x100 + o3;
            &&& a / 0x100_0000 == o0
            &&& a / 0x1_0000 % 0x100 == o1
            &&& a / 0x100 % 0x100 == o2
            &&& a % 0x100 == o3
            &&& a <= 0xffff_ffff
        }),
{
}

/// Only one text spells an IPv4 address: a text that is read as an address
/// is the text that is written for that address.
pub proof fn lemma_ipv4_text_is_unique(s: Seq<char>)
    requires
        ipv4_of(s) is Some,
    ensures
        s == ipv4_text(ipv4_of(s)->0),
{
    let f = split(s, '.');
    lemma_join_split(s, '.');
    lemma_join_four(f, '.');
    lemma_decimal_text_of_value(f[0]);
    lemma_decimal_text_of_value(f[1]);
    lemma_decimal_text_of_value(f[2]);
    lemma_decimal_text_of_value(f[3]);
    lemma_bytes_of_value(
        decimal_value(f[0]),
        decimal_value(f[1]),
        decimal_value(f[2]),
        decimal_value(f[3]),
    );
}

/// The hexadecimal notations of a list of groups.
pub open spec fn hex_texts(groups: Seq<u16>) -> Seq<Seq<char>> {
    Seq::new(groups.len(), |i: int| hex_text(groups[i] as nat))
}

/// The text of groups holds no dot, and its colons cut it into the
/// notations of the groups.
pub proof fn lemma_groups_text_split(groups: Seq<u16>)
    ensures
        !groups_text(groups).contains('.'),
        groups.len() >= 1 ==> split(groups_text(groups), ':') == hex_texts(groups),
    decreases groups.len(),
{
    if groups.len() == 0 {
    } else if groups.len() == 1 {
        lemma_hex_text(groups[0] as nat);
        lemma_hex_digits_hold_no(hex_text(groups[0] as nat), '.');
        lemma_hex_digits_hold_no(hex_text(groups[0] as nat), ':');
        lemma_split_whole(hex_text(groups[0] as nat), ':');
        assert(hex_texts(groups) =~= seq![hex_text(groups[0] as nat)]);
    } else {
        let before = groups.drop_last();
        let last = hex_text(groups.last() as nat);
        lemma_groups_text_split(before);
        lemma_hex_text(groups.last() as nat);
        lemma_hex_digits_hold_no(last, '.');
        lemma_hex_digits_hold_no(last, ':');
        lemma_split_push_piece(groups_text(before), ':', last);
        assert(hex_texts(before).push(last) =~= hex_texts(groups)) by {
            assert forall|i: int| 0 <= i < groups.len() implies hex_texts(before).push(last)[i]
                == hex_texts(groups)[i] by {
                if i < before.len() {
                    assert(before[i] == groups[i]);
                }
            }
        }
        let colon = seq![':'];
        assert(!colon.contains('.')) by {
            if colon.contains('.') {
                let i = choose|i: int| 0 <= i < colon.len() && colon[i] == '.';
                assert(colon[i] == ':');
            }
        }
        lemma_concat_holds_no(groups_text(before), colon, '.');
        lemma_concat_holds_no(groups_text(before) + colon, last, '.');
    }
}

/// The notations of groups are read back as those groups, whether or not a
/// dotted quad may stand at the end.
pub proof fn lemma_groups_of_hex_texts(groups: Seq<u16>, v4_last: bool)
    ensures
        groups_of(hex_texts(groups), v4_last) == Some(groups),
        forall|i: int| 0 <= i < groups.len() ==> (#[trigger] hex_texts(groups)[i]).len() > 0,
    decreases groups.len(),
{
    let texts = hex_texts(groups);
    if groups.len() == 0 {
        assert(groups =~= Seq::<u16>::empty());
    } else {
        let before = groups.drop_last();
        lemma_groups_of_hex_texts(before, false);
        assert(texts.drop_last() =~= hex_texts(before)) by {
            assert forall|i: int| 0 <= i < before.len() implies texts.drop_last()[i] == hex_texts(
                before,
            )[i] by {
                assert(before[i] == groups[i]);
            }
        }
        lemma_hex_text(groups.last() as nat);
        assert(texts.last() == hex_text(groups.last() as nat));
        assert(group_of(texts.last()) == Some(groups.last()));
        assert(before.push(groups.last()) =~= groups);
        assert forall|i: int| 0 <= i < groups.len() implies (#[trigger] texts[i]).len() > 0 by {
            lemma_hex_text(groups[i] as nat);
        }
    }
}

/// The first `k` groups of an address spell the address without its last
/// `8 - k` groups.
pub proof fn lemma_groups_value_prefix(a: u128, k: nat)
    requires
        k <= 8,
    ensures
        groups_value(groups_of_value(a).take(k as int)) == a as nat / pow2((16 * (8 - k)) as nat),
    decreases k,
{
    let groups = groups_of_value(a);
    lemma2_to64();
    if k == 0 {
        assert(groups.take(0) =~= Seq::<u16>::empty());
        crate::cidr::lemma_family_limits();
        lemma_basic_div_specific_divisor(pow2(128) as int);
    } else {
        lemma_groups_value_prefix(a, (k - 1) as nat);
        let now = groups.take(k as int);
        assert(now.drop_last() == groups.take(k - 1));
        assert(now.last() == groups[k - 1]);
        let low = pow2((16 * (8 - k)) as nat) as int;
        lemma_pow2_pos((16 * (8 - k)) as nat);
        lemma_pow2_adds((16 * (8 - k)) as nat, 16);
        assert(pow2((16 * (8 - (k - 1))) as nat) == low * 0x1_0000);
        let q = a as int / low;
        lemma_div_denominator(a as int, low, 0x1_0000);
        assert(a as int / (low * 0x1_0000) == q / 0x1_0000);
        lemma_fundamental_div_mod(q, 0x1_0000);
        assert(groups[k - 1] == (q % 0x1_0000) as u16);
    }
}

/// The eight groups of an address spell the address.
pub proof fn lemma_groups_value_round_trip(a: u128)
    ensures
        groups_value(groups_of_value(a)) == a,
{
    lemma_groups_value_prefix(a, 8);
    lemma2_to64();
    assert(groups_of_value(a).take(8) == groups_of_value(a));
}

/// Among the first `n` groups there is a longest run of zero groups that is
/// the first of its length; the result is that run, and the length of the
/// run of zero groups that ends just before index `n`.
pub proof fn lemma_longest_run_among(groups: Seq<u16>, n: int) -> (r: (int, int, int))
    requires
        0 <= n <= groups.len(),
    ensures
        zero_run(groups, r.0, r.1),
        r.0 + r.1 <= n,
        forall|s: int, l: int| #[trigger]
            zero_run(groups, s, l) && s + l <= n ==> l < r.1 || (l == r.1 && r.0 <= s),
        0 <= r.2 <= r.1,
        zero_run(groups, n - r.2, r.2),
        r.2 < n ==> groups[n - r.2 - 1] != 0,
    decreases n,
{
    if n == 0 {
        (0, 0, 0)
    } else {
        let (start, len, cur) = lemma_longest_run_among(groups, n - 1);
        let i = n - 1;
        let (new_start, new_len, new_cur) = if groups[i] == 0 {
            if cur + 1 > len {
                (i - cur, cur + 1, cur + 1)
            } else {
                (start, len, cur + 1)
            }
        } else {
            (start, len, 0int)
        };
        assert forall|s: int, l: int| #[trigger]
            zero_run(groups, s, l) && s + l <= n implies l < new_len || (l == new_len && new_start
            <= s) by {
            if s + l <= i {
                assert(l < len || (l == len && start <= s));
            } else if l > 0 {
                assert(groups[i] == 0);
                if l > cur + 1 {
                    assert(groups[i - cur - 1] == 0);
                }
            }
        }
        (new_start, new_len, new_cur)
    }
}

/// Every list of groups has a longest run of zero groups that is the first
/// of its length, and [`elided_run`] names it.
pub proof fn lemma_elided_run(groups: Seq<u16>)
    ensures
        longest_zero_run(groups, elided_run(groups).0, elided_run(groups).1),
{
    let (start, len, cur) = lemma_longest_run_among(groups, groups.len() as int);
    let witness = (start, len);
    assert(zero_run(groups, witness.0, witness.1));
    assert forall|s: int, l: int| #[trigger] zero_run(groups, s, l) implies l < len || (l == len
        && start <= s) by {
        assert(s + l <= groups.len());
    }
    assert(longest_zero_run(groups, witness.0, witness.1));
}

/// The fields into which colons cut a text with `::`: the notations of the
/// groups before it, an empty field, and the notations of the groups after
/// it; where no group stands on a side, an empty field stands there.
pub open spec fn elided_fields(head: Seq<u16>, tail: Seq<u16>) -> Seq<Seq<char>> {
    (if head.len() == 0 {
        seq![Seq::<char>::empty()]
    } else {
        hex_texts(head)
    }) + seq![Seq::<char>::empty()] + (if tail.len() == 0 {
        seq![Seq::<char>::empty()]
    } else {
        hex_texts(tail)
    })
}

/// Appending the text of groups behind a colon appends their notations to
/// the fields.
pub proof fn lemma_split_push_groups(s: Seq<char>, groups: Seq<u16>)
    requires
        groups.len() >= 1,
    ensures
        split(s + seq![':'] + groups_text(groups), ':') == split(s, ':') + hex_texts(groups),
    decreases groups.len(),
{
    let last = hex_text(groups.last() as nat);
    lemma_hex_text(groups.last() as nat);
    lemma_hex_digits_hold_no(last, ':');
    if groups.len() == 1 {
        lemma_split_push_piece(s, ':', last);
        assert(groups[0] == groups.last());
        assert(split(s, ':').push(last) =~= split(s, ':') + hex_texts(groups));
    } else {
        let before = groups.drop_last();
        lemma_split_push_groups(s, before);
        let so_far = s + seq![':'] + groups_text(before);
        lemma_split_push_piece(so_far, ':', last);
        assert(s + seq![':'] + groups_text(groups) =~= so_far + seq![':'] + last);
        assert((split(s, ':') + hex_texts(before)).push(last) =~= split(s, ':') + hex_texts(
            groups,
        )) by {
            assert forall|i: int| 0 <= i < groups.len() implies hex_texts(before).push(last)[i]
                == hex_texts(groups)[i] by {
                if i < before.len() {
                    assert(before[i] == groups[i]);
                }
            }
            assert(hex_texts(before).push(last) =~= hex_texts(groups));
        }
    }
}

/// Colons cut the text of groups around `::` into the fields that
/// [`elided_fields`] names.
pub proof fn lemma_elided_text_split(head: Seq<u16>, tail: Seq<u16>)
    ensures
        split(groups_text(head) + seq![':', ':'] + groups_text(tail), ':') == elided_fields(
            head,
            tail,
        ),
{
    let a = groups_text(head);
    let b = groups_text(tail);
    let empty = Seq::<char>::empty();
    let front = if head.len() == 0 {
        seq![empty]
    } else {
        hex_texts(head)
    };
    lemma_groups_text_split(head);
    if head.len() == 0 {
        assert(a =~= empty);
    }
    assert(split(a, ':') == front);
    assert(!empty.contains(':'));
    lemma_split_push_piece(a, ':', empty);
    assert(a + seq![':'] + empty =~= a + seq![':']);
    let x = a + seq![':'];
    assert(split(x, ':') == front.push(empty));
    assert(a + seq![':', ':'] + b =~= x + seq![':'] + b);
    if tail.len() == 0 {
        assert(b =~= empty);
        lemma_split_push_piece(x, ':', empty);
        assert(front.push(empty).push(empty) =~= elided_fields(head, tail));
    } else {
        lemma_split_push_groups(x, tail);
        assert(front.push(empty) + hex_texts(tail) =~= elided_fields(head, tail));
    }
}

/// The text of groups around `::` is read back as the groups with zero
/// groups in the gap.
pub proof fn lemma_elided_fields_read(head: Seq<u16>, tail: Seq<u16>, text: Seq<char>)
    requires
        head.len() + tail.len() <= 6,
        split(text, ':') == elided_fields(head, tail),
    ensures
        ipv6_of(text) == Some(
            groups_value(head + zero_groups((8 - head.len() - tail.len()) as nat) + tail) as u128,
        ),
{
    let f = split(text, ':');
    let empty = Seq::<char>::empty();
    lemma_groups_of_hex_texts(head, false);
    lemma_groups_of_hex_texts(tail, true);
    let i: int = head.len() as int;
    let gap: int = if head.len() == 0 {
        1
    } else {
        head.len() as int
    };
    // The first empty field is the one of the gap, or the one before it
    // where no group stands in front.
    assert(is_first_empty(f, i)) by {
        if head.len() > 0 {
            assert forall|j: int| 0 <= j < i implies (#[trigger] f[j]).len() != 0 by {
                assert(f[j] == hex_texts(head)[j]);
            }
            assert(f[i] == empty);
        } else {
            assert(f[0] == empty);
        }
    }
    let chosen = choose|k: int| is_first_empty(f, k);
    assert(is_first_empty(f, chosen));
    assert(chosen == i) by {
        if chosen < i {
            assert(f[chosen].len() != 0);
        }
        if i < chosen {
            assert(f[i].len() != 0);
        }
    }
    assert(f[gap].len() == 0);
    let rest = f.skip(gap + 1);
    let head_fields = if i == 0 {
        Seq::<Seq<char>>::empty()
    } else {
        f.take(i)
    };
    assert(head_fields =~= hex_texts(head)) by {
        if i > 0 {
            assert forall|j: int| 0 <= j < i implies f.take(i)[j] == hex_texts(head)[j] by {}
        }
    }
    let tail_fields = if rest.len() == 1 && rest[0].len() == 0 {
        Seq::<Seq<char>>::empty()
    } else {
        rest
    };
    assert(tail_fields =~= hex_texts(tail)) by {
        if tail.len() == 0 {
            assert(rest =~= seq![empty]);
        } else {
            assert(rest =~= hex_texts(tail));
            assert(rest[0].len() > 0) by {
                assert(rest[0] == hex_texts(tail)[0]);
            }
        }
    }
    lemma_groups_value_bound(head + zero_groups((8 - head.len() - tail.len()) as nat) + tail);
    crate::cidr::lemma_family_limits();
}

/// An IPv6 address is read back from its text.
pub proof fn lemma_ipv6_round_trip(a: u128)
    ensures
        ipv6_of(ipv6_text(a)) == Some(a),
        ipv4_of(ipv6_text(a)) is None,
{
    crate::cidr::lemma_family_limits();
    lemma2_to64();
    if a / 0x1_0000_0000 == 0xffff {
        lemma_mapped_round_trip(a);
    } else {
        let groups = groups_of_value(a);
        lemma_elided_run(groups);
        lemma_groups_value_round_trip(a);
        let (start, len) = elided_run(groups);
        let text = ipv6_text(a);
        assert(text == ipv6_text_eliding(groups, start, len));
        if len > 1 {
            let head = groups.take(start);
            let tail = groups.skip(start + len);
            lemma_elided_text_split(head, tail);
            lemma_elided_fields_read(head, tail, text);
            assert(head + zero_groups((8 - head.len() - tail.len()) as nat) + tail =~= groups);
            // Without a dot the text is no dotted quad.
            lemma_groups_text_split(head);
            lemma_groups_text_split(tail);
            let colons = seq![':', ':'];
            assert(!colons.contains('.')) by {
                if colons.contains('.') {
                    let i = choose|i: int| 0 <= i < colons.len() && colons[i] == '.';
                    assert(colons[i] == ':');
                }
            }
            lemma_concat_holds_no(groups_text(head), colons, '.');
            lemma_concat_holds_no(groups_text(head) + colons, groups_text(tail), '.');
            lemma_split_whole(text, '.');
        } else {
            lemma_groups_text_split(groups);
            lemma_groups_of_hex_texts(groups, true);
            let f = split(text, ':');
            assert(f == hex_texts(groups));
            assert(!exists|i: int| is_first_empty(f, i)) by {
                if exists|i: int| is_first_empty(f, i) {
                    let i = choose|i: int| is_first_empty(f, i);
                    assert(f[i].len() > 0);
                }
            }
            lemma_split_whole(text, '.');
        }
    }
}

/// The text `::ffff:` before a text without colons is cut into two empty
/// fields, the group `ffff` and that text.
pub proof fn lemma_mapped_fields(quad: Seq<char>)
    requires
        !quad.contains(':'),
    ensures
        split(seq![':', ':', 'f', 'f', 'f', 'f', ':'] + quad, ':') == seq![
            Seq::<char>::empty(),
            Seq::<char>::empty(),
            seq!['f', 'f', 'f', 'f'],
            quad,
        ],
{
    let empty = Seq::<char>::empty();
    let ffff = seq!['f', 'f', 'f', 'f'];
    let text = seq![':', ':', 'f', 'f', 'f', 'f', ':'] + quad;
    assert(!empty.contains(':'));
    assert(!ffff.contains(':')) by {
        if ffff.contains(':') {
            let i = choose|i: int| 0 <= i < ffff.len() && ffff[i] == ':';
            assert(ffff[i] == 'f');
        }
    }
    lemma_split_whole(empty, ':');
    lemma_split_push_piece(empty, ':', empty);
    lemma_split_push_piece(empty + seq![':'] + empty, ':', ffff);
    lemma_split_push_piece(empty + seq![':'] + empty + seq![':'] + ffff, ':', quad);
    assert(text =~= empty + seq![':'] + empty + seq![':'] + ffff + seq![':'] + quad);
    assert(seq![empty].push(empty).push(ffff).push(quad) =~= seq![empty, empty, ffff, quad]);
}

/// The field `ffff` spells the group 65535.
pub proof fn lemma_ffff_group()
    ensures
        group_of(seq!['f', 'f', 'f', 'f']) == Some(0xffffu16),
        groups_of(seq![seq!['f', 'f', 'f', 'f']], false) == Some(seq![0xffffu16]),
{
    let ffff = seq!['f', 'f', 'f', 'f'];
    assert(group_of(ffff) == Some(0xffffu16)) by {
        reveal_with_fuel(crate::text::hex_value, 5);
        assert(ffff.drop_last() =~= seq!['f', 'f', 'f']);
        assert(ffff.drop_last().drop_last() =~= seq!['f', 'f']);
        assert(ffff.drop_last().drop_last().drop_last() =~= seq!['f']);
        assert(ffff.drop_last().drop_last().drop_last().drop_last() =~= Seq::<char>::empty());
        assert forall|i: int| 0 <= i < ffff.len() implies is_hex_digit(#[trigger] ffff[i]) by {}
    }
    assert(seq![ffff].drop_last() =~= Seq::<Seq<char>>::empty());
    assert(groups_of(Seq::<Seq<char>>::empty(), false) == Some(Seq::<u16>::empty()));
    assert(seq![ffff].last() == ffff);
    assert(Seq::<u16>::empty().push(0xffffu16) =~= seq![0xffffu16]);
}

/// The groups of an address that carries an IPv4 address behind `::ffff:`
/// spell the address.
pub proof fn lemma_mapped_value(hi: u16, lo: u16)
    ensures
        groups_value(Seq::<u16>::empty() + zero_groups(5) + seq![0xffffu16, hi, lo]) == 0xffff
            * 0x1_0000_0000 + hi * 0x1_0000 + lo,
{
    let all = Seq::<u16>::empty() + zero_groups(5) + seq![0xffffu16, hi, lo];
    assert(all =~= seq![0u16, 0u16, 0u16, 0u16, 0u16, 0xffffu16, hi, lo]);
    reveal_with_fuel(groups_value, 9);
    let s7 = all.drop_last();
    let s6 = s7.drop_last();
    let s5 = s6.drop_last();
    let s4 = s5.drop_last();
    let s3 = s4.drop_last();
    let s2 = s3.drop_last();
    let s1 = s2.drop_last();
    let s0 = s1.drop_last();
    assert(s0.len() == 0);
    assert(groups_value(s0) == 0);
    assert(groups_value(s1) == 0);
    assert(groups_value(s2) == 0);
    assert(groups_value(s3) == 0);
    assert(groups_value(s4) == 0);
    assert(groups_value(s5) == 0);
    assert(groups_value(s6) == 0xffff);
    assert(groups_value(s7) == 0xffff * 0x1_0000 + hi);
    assert(groups_value(all) == (0xffff * 0x1_0000 + hi) * 0x1_0000 + lo);
}

/// A dotted quad behind `::ffff:` is no dotted quad as a whole.
pub proof fn lemma_mapped_is_no_quad(v: u32)
    ensures
        ipv4_of(seq![':', ':', 'f', 'f', 'f', 'f', ':'] + ipv4_text(v)) is None,
{
    let o0 = decimal_text((v / 0x100_0000) as nat);
    let o1 = decimal_text((v / 0x1_0000 % 0x100) as nat);
    let o2 = decimal_text((v / 0x100 % 0x100) as nat);
    let o3 = decimal_text((v % 0x100) as nat);
    let prefix = seq![':', ':', 'f', 'f', 'f', 'f', ':'];
    let text = prefix + ipv4_text(v);
    lemma_decimal_text((v / 0x100_0000) as nat);
    lemma_decimal_text((v / 0x1_0000 % 0x100) as nat);
    lemma_decimal_text((v / 0x100 % 0x100) as nat);
    lemma_decimal_text((v % 0x100) as nat);
    lemma_digits_hold_no(o0, '.');
    lemma_digits_hold_no(o1, '.');
    lemma_digits_hold_no(o2, '.');
    lemma_digits_hold_no(o3, '.');
    assert(!prefix.contains('.')) by {
        if prefix.contains('.') {
            let i = choose|i: int| 0 <= i < prefix.len() && prefix[i] == '.';
            assert(prefix[i] != '.');
        }
    }
    lemma_concat_holds_no(prefix, o0, '.');
    lemma_split_whole(prefix + o0, '.');
    lemma_split_push_piece(prefix + o0, '.', o1);
    lemma_split_push_piece(prefix + o0 + seq!['.'] + o1, '.', o2);
    lemma_split_push_piece(prefix + o0 + seq!['.'] + o1 + seq!['.'] + o2, '.', o3);
    assert(text =~= prefix + o0 + seq!['.'] + o1 + seq!['.'] + o2 + seq!['.'] + o3);
    let parts = split(text, '.');
    assert(parts[0] == prefix + o0);
    assert(!is_digit(parts[0][0]));
    assert(octet_of(parts[0]) is None);
}

/// An IPv6 address that carries an IPv4 address behind `::ffff:` is read
/// back from its text.
pub proof fn lemma_mapped_round_trip(a: u128)
    requires
        a / 0x1_0000_0000 == 0xffff,
    ensures
        ipv6_of(ipv6_text(a)) == Some(a),
        ipv4_of(ipv6_text(a)) is None,
{
    let v = (a % 0x1_0000_0000) as u32;
    let quad = ipv4_text(v);
    let text = ipv6_text(a);
    let empty = Seq::<char>::empty();
    let ffff = seq!['f', 'f', 'f', 'f'];
    lemma_ipv4_round_trip(v);
    lemma_mapped_is_no_quad(v);
    lemma_mapped_fields(quad);
    lemma_ffff_group();
    let hi = (v / 0x1_0000) as u16;
    let lo = (v % 0x1_0000) as u16;
    lemma_mapped_value(hi, lo);
    assert(text == seq![':', ':', 'f', 'f', 'f', 'f', ':'] + quad);
    let f = split(text, ':');
    assert(f == seq![empty, empty, ffff, quad]);
    assert(is_first_empty(f, 0));
    let chosen = choose|k: int| is_first_empty(f, k);
    assert(is_first_empty(f, chosen));
    assert(chosen == 0) by {
        if 0 < chosen {
            assert(f[0].len() != 0);
        }
    }
    let rest = f.skip(2);
    assert(rest =~= seq![ffff, quad]);
    assert(rest.drop_last() =~= seq![ffff]);
    assert(group_of(quad) is None);
    let tail = seq![0xffffu16, hi, lo];
    assert(groups_of(rest, true) == Some(tail)) by {
        assert(rest.last() == quad);
        assert(seq![0xffffu16].push(hi).push(lo) =~= tail);
    }
    assert(groups_of(Seq::<Seq<char>>::empty(), false) == Some(Seq::<u16>::empty()));
    assert(0xffff * 0x1_0000_0000 + hi * 0x1_0000 + lo == a);
}

/// An address is read back from its text: what [`IpAddress::to_text`]
/// writes, [`IpAddress::parse`] reads as the same address.
pub proof fn lemma_ip_round_trip(ip: IpAddress)
    ensures
        ip_of(ip_text(ip)) == Some(ip),
{
    match ip {
        IpAddress::V4(a) => {
            lemma_ipv4_round_trip(a);
        },
        IpAddress::V6(a) => {
            lemma_ipv6_round_trip(a);
        },
    }
}

/// The text of groups is made of hexadecimal digits and colons.
pub proof fn lemma_groups_text_holds_no(groups: Seq<u16>, c: char)
    requires
        !is_hex_digit(c),
        c != ':',
    ensures
        !groups_text(groups).contains(c),
    decreases groups.len(),
{
    if groups.len() == 0 {
    } else if groups.len() == 1 {
        lemma_hex_text(groups[0] as nat);
        lemma_hex_digits_hold_no(hex_text(groups[0] as nat), c);
    } else {
        let before = groups.drop_last();
        let last = hex_text(groups.last() as nat);
        lemma_groups_text_holds_no(before, c);
        lemma_hex_text(groups.last() as nat);
        lemma_hex_digits_hold_no(last, c);
        let colon = seq![':'];
        assert(!colon.contains(c)) by {
            if colon.contains(c) {
                let i = choose|i: int| 0 <= i < colon.len() && colon[i] == c;
                assert(colon[i] == ':');
            }
        }
        lemma_concat_holds_no(groups_text(before), colon, c);
        lemma_concat_holds_no(groups_text(before) + colon, last, c);
    }
}

/// The text of an IPv4 address is made of decimal digits and dots.
pub proof fn lemma_ipv4_text_holds_no(a: u32, c: char)
    requires
        !is_digit(c),
        c != '.',
    ensures
        !ipv4_text(a).contains(c),
{
    let d0 = decimal_text((a / 0x100_0000) as nat);
    let d1 = decimal_text((a / 0x1_0000 % 0x100) as nat);
    let d2 = decimal_text((a / 0x100 % 0x100) as nat);
    let d3 = decimal_text((a % 0x100) as nat);
    lemma_decimal_text((a / 0x100_0000) as nat);
    lemma_decimal_text((a / 0x1_0000 % 0x100) as nat);
    lemma_decimal_text((a / 0x100 % 0x100) as nat);
    lemma_decimal_text((a % 0x100) as nat);
    lemma_digits_hold_no(d0, c);
    lemma_digits_hold_no(d1, c);
    lemma_digits_hold_no(d2, c);
    lemma_digits_hold_no(d3, c);
    let dot = seq!['.'];
    assert(!dot.contains(c)) by {
        if dot.contains(c) {
            let i = choose|i: int| 0 <= i < dot.len() && dot[i] == c;
            assert(dot[i] == '.');
        }
    }
    lemma_concat_holds_no(d0, dot, c);
    lemma_concat_holds_no(d0 + dot, d1, c);
    lemma_concat_holds_no(d0 + dot + d1, dot, c);
    lemma_concat_holds_no(d0 + dot + d1 + dot, d2, c);
    lemma_concat_holds_no(d0 + dot + d1 + dot + d2, dot, c);
    lemma_concat_holds_no(d0 + dot + d1 + dot + d2 + dot, d3, c);
}

/// The text of an address is made of hexadecimal digits, colons and dots.
pub proof fn lemma_ip_text_holds_no(ip: IpAddress, c: char)
    requires
        !is_hex_digit(c),
        c != ':',
        c != '.',
    ensures
        !ip_text(ip).contains(c),
{
    match ip {
        IpAddress::V4(a) => {
            lemma_ipv4_text_holds_no(a, c);
        },
        IpAddress::V6(a) => {
            if a / 0x1_0000_0000 == 0xffff {
                let prefix = seq![':', ':', 'f', 'f', 'f', 'f', ':'];
                assert(!prefix.contains(c)) by {
                    if prefix.contains(c) {
                        let i = choose|i: int| 0 <= i < prefix.len() && prefix[i] == c;
                        assert(prefix[i] == ':' || prefix[i] == 'f');
                    }
                }
                lemma_ipv4_text_holds_no((a % 0x1_0000_0000) as u32, c);
                lemma_concat_holds_no(prefix, ipv4_text((a % 0x1_0000_0000) as u32), c);
            } else {
                let groups = groups_of_value(a);
                let (start, len) = elided_run(groups);
                if len > 1 {
                    let head = groups.take(start);
                    let tail = groups.skip(start + len);
                    let colons = seq![':', ':'];
                    assert(!colons.contains(c)) by {
                        if colons.contains(c) {
                            let i = choose|i: int| 0 <= i < colons.len() && colons[i] == c;
                            assert(colons[i] == ':');
                        }
                    }
                    lemma_groups_text_holds_no(head, c);
                    lemma_groups_text_holds_no(tail, c);
                    lemma_concat_holds_no(groups_text(head), colons, c);
                    lemma_concat_holds_no(groups_text(head) + colons, groups_text(tail), c);
                } else {
                    lemma_groups_text_holds_no(groups, c);
                }
            }
        },
    }
}

/// A well-formed block is read back from its text: what
/// [`CidrBlock::to_text`] writes, [`CidrBlock::parse`] reads as the same
/// block.
pub proof fn lemma_cidr_round_trip(block: CidrBlock)
    requires
        block.well_formed(),
    ensures
        cidr_of(cidr_text(block)) == Some(block),
{
    let address = ip_text(block.network);
    let prefix = decimal_text(block.prefix_len as nat);
    lemma_ip_text_holds_no(block.network, '/');
    lemma_decimal_text(block.prefix_len as nat);
    lemma_digits_hold_no(prefix, '/');
    crate::text::lemma_split_two(address, '/', prefix);
    lemma_ip_round_trip(block.network);
    lemma_octet_round_trip(block.prefix_len);
}

/// The blocks of a range, decoded from their texts, give back the range:
/// every text of [`cidr_texts`] is read as its block, and an address lies
/// between `first` and `last` exactly when it lies between the network
/// address and the broadcast address of one of the decoded blocks.
pub proof fn lemma_cidrs_decode_to_their_range(first: IpAddress, last: IpAddress)
    requires
        first.same_family(last),
    ensures
        forall|i: int|
            0 <= i < cover_of(first, last).len() ==> cidr_of(
                #[trigger] cidr_texts(cover_of(first, last))[i],
            ) == Some(cover_of(first, last)[i]),
        forall|ip: IpAddress|
            (ip.same_family(first) && first.value() <= ip.value() <= last.value()) <==> (exists|
                i: int,
            |
                0 <= i < cover_of(first, last).len() && cidr_of(
                    #[trigger] cidr_texts(cover_of(first, last))[i],
                ) is Some && cidr_of(cidr_texts(cover_of(first, last))[i])->0.contains(ip)),
{
    let blocks = cover_of(first, last);
    let texts = cidr_texts(blocks);
    lemma_cover_of(first, last);
    lemma_tiling_partitions(blocks, first, last);
    assert forall|i: int| 0 <= i < blocks.len() implies cidr_of(#[trigger] texts[i]) == Some(
        blocks[i],
    ) by {
        assert(blocks[i].well_formed());
        lemma_cidr_round_trip(blocks[i]);
    }
    assert forall|ip: IpAddress|
        (ip.same_family(first) && first.value() <= ip.value() <= last.value()) <==> (exists|i: int|
            0 <= i < blocks.len() && cidr_of(#[trigger] texts[i]) is Some && cidr_of(
                texts[i],
            )->0.contains(ip)) by {
        if ip.same_family(first) && first.value() <= ip.value() <= last.value() {
            let i = choose|i: int| 0 <= i < blocks.len() && #[trigger] blocks[i].contains(ip);
            assert(cidr_of(texts[i]) == Some(blocks[i]));
        }
        if exists|i: int|
            0 <= i < blocks.len() && cidr_of(#[trigger] texts[i]) is Some && cidr_of(
                texts[i],
            )->0.contains(ip) {
            let i = choose|i: int|
                0 <= i < blocks.len() && cidr_of(#[trigger] texts[i]) is Some && cidr_of(
                    texts[i],
                )->0.contains(ip);
            assert(cidr_of(texts[i]) == Some(blocks[i]));
            assert(blocks[i].contains(ip));
        }
    }
}

} // verus!
