//! Reading back what was written: the text of a prefix reads as that
//! prefix.

use vstd::prelude::*;

use crate::error::ErrorSpec;
use crate::helper::be_u16;
use crate::ip_address::IpAddress;
use crate::ip_text::{
    find_double_colon, group_of_text, groups_of, groups_of_pieces, groups_of_text, groups_of_v4,
    hex_digit_char, hex_pieces, hex_text, hex_value, ip_of_text, ipv4_of_text, ipv6_of_text,
    is_hex_digit, is_v4_mapped, longest_zero_run, octet_of_text, text_of_groups, text_of_ip,
    text_of_v4, text_of_v6, v6_of_groups, zero_groups, zero_run,
};
use crate::routing_prefix::{prefix_of_text, text_of_prefix, RoutingPrefix};
use crate::text::{
    decimal_text, find_from, has_char, is_digit, join, lemma_decimal_text, lemma_find_from,
    lemma_split_first, lemma_split_join, lemma_split_without, split,
};

verus! {

/// Joined pieces hold a character other than the separator only where a
/// piece holds it.
pub proof fn lemma_join_chars(parts: Seq<Seq<char>>, c: char, x: char)
    requires
        x != c,
        forall|i: int| 0 <= i < parts.len() ==> !has_char(#[trigger] parts[i], x),
    ensures
        !has_char(join(parts, c), x),
    decreases parts.len(),
{
    let text = join(parts, c);
    if parts.len() == 1 {
        assert(!has_char(parts[0], x));
    } else if parts.len() > 1 {
        let rest = parts.skip(1);
        assert forall|i: int| 0 <= i < rest.len() implies !has_char(#[trigger] rest[i], x) by {
            assert(rest[i] == parts[i + 1]);
        }
        lemma_join_chars(rest, c, x);
        let first = parts[0];
        let tail = join(rest, c);
        assert(!has_char(first, x));
        assert forall|i: int| 0 <= i < text.len() implies text[i] != x by {
            if i < first.len() {
                assert(text[i] == first[i]);
            } else if i > first.len() {
                assert(text[i] == tail[i - first.len() - 1]);
            }
        }
    }
}

/// Whether `s` holds `c` at `i` and again right after it.
pub open spec fn double_at(s: Seq<char>, c: char, i: int) -> bool {
    0 <= i && i + 1 < s.len() && s[i] == c && s[i + 1] == c
}

/// Pieces that are not empty and hold no separator, joined, neither start
/// nor end with the separator, and hold no two separators in a row.
pub proof fn lemma_join_no_double(parts: Seq<Seq<char>>, c: char)
    requires
        parts.len() > 0,
        forall|i: int| 0 <= i < parts.len() ==> (#[trigger] parts[i]).len() > 0,
        forall|i: int| 0 <= i < parts.len() ==> !has_char(#[trigger] parts[i], c),
    ensures
        join(parts, c).len() > 0,
        join(parts, c)[0] != c,
        join(parts, c).last() != c,
        forall|i: int| !#[trigger] double_at(join(parts, c), c, i),
    decreases parts.len(),
{
    let text = join(parts, c);
    let first = parts[0];
    assert(first.len() > 0);
    assert(!has_char(first, c));
    assert(first[0] != c);
    assert(first.last() != c);
    if parts.len() > 1 {
        let rest = parts.skip(1);
        assert forall|i: int| 0 <= i < rest.len() implies (#[trigger] rest[i]).len() > 0 by {
            assert(rest[i] == parts[i + 1]);
        }
        assert forall|i: int| 0 <= i < rest.len() implies !has_char(#[trigger] rest[i], c) by {
            assert(rest[i] == parts[i + 1]);
        }
        lemma_join_no_double(rest, c);
        let tail = join(rest, c);
        let n = first.len() as int;
        assert(text =~= first + seq![c] + tail);
        assert(text[0] == first[0]);
        assert(text.last() == tail.last());
        assert forall|i: int| !#[trigger] double_at(text, c, i) by {
            if 0 <= i && i + 1 < text.len() {
                if i < n {
                    assert(text[i] == first[i]);
                } else if i == n {
                    assert(text[i + 1] == tail[0]);
                } else {
                    assert(text[i] == tail[i - n - 1]);
                    assert(text[i + 1] == tail[i - n]);
                    assert(!double_at(tail, c, i - n - 1));
                }
            }
        }
    } else {
        assert forall|i: int| !#[trigger] double_at(text, c, i) by {
            if 0 <= i && i + 1 < text.len() {
                assert(first[i] != c);
            }
        }
    }
}

/// The hexadecimal digits of a group are one to four hexadecimal digits
/// that write the group.
pub proof fn lemma_hex_text(n: nat)
    requires
        n < 65536,
    ensures
        1 <= hex_text(n).len() <= 4,
        n < 4096 ==> hex_text(n).len() <= 3,
        n < 256 ==> hex_text(n).len() <= 2,
        n < 16 ==> hex_text(n).len() == 1,
        forall|i: int| 0 <= i < hex_text(n).len() ==> is_hex_digit(#[trigger] hex_text(n)[i]),
        hex_value(hex_text(n)) == n,
    decreases n,
{
    let text = hex_text(n);
    if n < 16 {
        assert(text.drop_last() =~= Seq::<char>::empty());
        assert(hex_value(text.drop_last()) == 0);
        assert(is_hex_digit(text[0]));
    } else {
        lemma_hex_text(n / 16);
        let front = hex_text(n / 16);
        assert(text.drop_last() =~= front);
        assert(text.last() == hex_digit_char((n % 16) as int));
        assert forall|i: int| 0 <= i < text.len() implies is_hex_digit(#[trigger] text[i]) by {
            if i < front.len() {
                assert(text[i] == front[i]);
            }
        }
    }
}

/// The hexadecimal digits of a group hold nothing but hexadecimal digits.
pub proof fn lemma_hex_text_chars(n: nat, c: char)
    requires
        n < 65536,
        !is_hex_digit(c),
    ensures
        !has_char(hex_text(n), c),
{
    lemma_hex_text(n);
}

/// A group reads back from its hexadecimal digits.
pub proof fn lemma_group_round_trip(group: u16)
    ensures
        group_of_text(hex_text(group as nat)) == Some(group),
        ipv4_of_text(hex_text(group as nat)) is None,
{
    lemma_hex_text(group as nat);
    lemma_hex_text_chars(group as nat, '.');
    lemma_split_without(hex_text(group as nat), '.');
}

/// An octet reads back from its decimal digits.
pub proof fn lemma_octet_round_trip(octet: u8)
    ensures
        octet_of_text(decimal_text(octet as nat)) == Some(octet),
{
    lemma_decimal_text(octet as nat);
}

/// The four decimal texts of an IPv4 address.
pub open spec fn octet_texts(a: u8, b: u8, c: u8, d: u8) -> Seq<Seq<char>> {
    seq![
        decimal_text(a as nat),
        decimal_text(b as nat),
        decimal_text(c as nat),
        decimal_text(d as nat),
    ]
}

/// Dotted decimal holds digits and dots only.
pub proof fn lemma_v4_chars(a: u8, b: u8, c: u8, d: u8, x: char)
    requires
        !is_digit(x),
        x != '.',
    ensures
        !has_char(text_of_v4(a, b, c, d), x),
{
    let parts = octet_texts(a, b, c, d);
    lemma_decimal_text(a as nat);
    lemma_decimal_text(b as nat);
    lemma_decimal_text(c as nat);
    lemma_decimal_text(d as nat);
    lemma_join_chars(parts, '.', x);
}

/// An IPv4 address reads back from its dotted decimal text.
pub proof fn lemma_v4_round_trip(a: u8, b: u8, c: u8, d: u8)
    ensures
        ipv4_of_text(text_of_v4(a, b, c, d)) == Some(IpAddress::V4(a, b, c, d)),
{
    let parts = octet_texts(a, b, c, d);
    lemma_decimal_text(a as nat);
    lemma_decimal_text(b as nat);
    lemma_decimal_text(c as nat);
    lemma_decimal_text(d as nat);
    lemma_split_join(parts, '.');
    lemma_octet_round_trip(a);
    lemma_octet_round_trip(b);
    lemma_octet_round_trip(c);
    lemma_octet_round_trip(d);
}

/// Groups read back from their hexadecimal pieces.
pub proof fn lemma_pieces_round_trip(groups: Seq<u16>, allow_v4: bool)
    ensures
        groups_of_pieces(hex_pieces(groups), allow_v4) == Some(groups),
    decreases groups.len(),
{
    let pieces = hex_pieces(groups);
    if groups.len() == 0 {
        assert(groups =~= Seq::<u16>::empty());
    } else {
        let rest = groups.skip(1);
        lemma_group_round_trip(groups[0]);
        lemma_pieces_round_trip(rest, allow_v4);
        assert(pieces.skip(1) =~= hex_pieces(rest));
        assert(pieces[0] == hex_text(groups[0] as nat));
        assert(seq![groups[0]] + rest =~= groups);
    }
}

/// The hexadecimal pieces of groups are not empty and hold neither a
/// colon, a dot nor a slash.
pub proof fn lemma_hex_pieces(groups: Seq<u16>)
    ensures
        forall|i: int| 0 <= i < groups.len() ==> (#[trigger] hex_pieces(groups)[i]).len() > 0,
        forall|i: int| 0 <= i < groups.len() ==> !has_char(#[trigger] hex_pieces(groups)[i], ':'),
        forall|i: int| 0 <= i < groups.len() ==> !has_char(#[trigger] hex_pieces(groups)[i], '.'),
        forall|i: int| 0 <= i < groups.len() ==> !has_char(#[trigger] hex_pieces(groups)[i], '/'),
{
    let pieces = hex_pieces(groups);
    assert forall|i: int| 0 <= i < groups.len() implies (#[trigger] pieces[i]).len() > 0
        && !has_char(pieces[i], ':') && !has_char(pieces[i], '.') && !has_char(pieces[i], '/') by {
        lemma_hex_text(groups[i] as nat);
        lemma_hex_text_chars(groups[i] as nat, ':');
        lemma_hex_text_chars(groups[i] as nat, '.');
        lemma_hex_text_chars(groups[i] as nat, '/');
    }
}

/// Groups read back from their text, on either side of a `::`.
pub proof fn lemma_groups_round_trip(groups: Seq<u16>, allow_v4: bool)
    ensures
        groups_of_text(text_of_groups(groups), allow_v4) == Some(groups),
        !has_char(text_of_groups(groups), '.'),
        !has_char(text_of_groups(groups), '/'),
        groups.len() == 0 ==> text_of_groups(groups).len() == 0,
        groups.len() > 0 ==> text_of_groups(groups).len() > 0,
{
    let pieces = hex_pieces(groups);
    lemma_hex_pieces(groups);
    lemma_join_chars(pieces, ':', '.');
    lemma_join_chars(pieces, ':', '/');
    if groups.len() == 0 {
        assert(groups =~= Seq::<u16>::empty());
    } else {
        lemma_join_no_double(pieces, ':');
        lemma_split_join(pieces, ':');
        lemma_pieces_round_trip(groups, allow_v4);
    }
}

/// What `find_double_colon` returns is the first place of two colons in a
/// row, if there is one.
pub proof fn lemma_find_double_colon(s: Seq<char>, from: int)
    requires
        0 <= from <= s.len(),
    ensures
        from <= find_double_colon(s, from) <= s.len(),
        find_double_colon(s, from) < s.len() ==> double_at(s, ':', find_double_colon(s, from)),
        forall|j: int| from <= j < find_double_colon(s, from) ==> !#[trigger] double_at(s, ':', j),
    decreases s.len() - from,
{
    if from + 1 < s.len() && !(s[from] == ':' && s[from + 1] == ':') {
        lemma_find_double_colon(s, from + 1);
    }
}

/// In a text made of two sides around `::`, where the left side holds no
/// two colons in a row and does not end with one, and the right side does
/// not start with one, the `::` is found between the sides.
pub proof fn lemma_double_colon_between(left: Seq<char>, right: Seq<char>)
    requires
        left.len() > 0 ==> left.last() != ':',
        right.len() > 0 ==> right[0] != ':',
        forall|i: int| !#[trigger] double_at(left, ':', i),
    ensures
        find_double_colon(left + seq![':', ':'] + right, 0) == left.len(),
        (left + seq![':', ':'] + right).take(left.len() as int) == left,
        (left + seq![':', ':'] + right).skip(left.len() as int + 2) == right,
{
    let s = left + seq![':', ':'] + right;
    let n = left.len() as int;
    let at = find_double_colon(s, 0);
    lemma_find_double_colon(s, 0);
    assert(s[n] == ':' && s[n + 1] == ':');
    assert(double_at(s, ':', n));
    if at < n {
        assert(double_at(s, ':', at));
        assert(s[at] == left[at]);
        if at + 1 < n {
            assert(s[at + 1] == left[at + 1]);
            assert(!double_at(left, ':', at));
        }
    }
    assert(s.take(n) =~= left);
    assert(s.skip(n + 2) =~= right);
}

/// The groups of a run of zeros are zero, and the run ends within the
/// groups.
pub proof fn lemma_zero_run(groups: Seq<u16>, from: int)
    requires
        0 <= from <= groups.len(),
    ensures
        0 <= zero_run(groups, from) <= groups.len() - from,
        forall|i: int| from <= i < from + zero_run(groups, from) ==> #[trigger] groups[i] == 0,
    decreases groups.len() - from,
{
    if from < groups.len() && groups[from] == 0 {
        lemma_zero_run(groups, from + 1);
    }
}

/// The longest run of zeros is a run of zeros within the groups.
pub proof fn lemma_longest_zero_run(groups: Seq<u16>, from: int)
    requires
        0 <= from <= groups.len(),
    ensures
        longest_zero_run(groups, from).1 >= 0,
        longest_zero_run(groups, from).1 > 0 ==> from <= longest_zero_run(groups, from).0
            && longest_zero_run(groups, from).0 + longest_zero_run(groups, from).1 <= groups.len()
            && zero_run(groups, longest_zero_run(groups, from).0) == longest_zero_run(
            groups,
            from,
        ).1,
    decreases groups.len() - from,
{
    if from < groups.len() {
        lemma_longest_zero_run(groups, from + 1);
        lemma_zero_run(groups, from);
    }
}

/// A text of groups holds no two colons in a row, and neither starts nor
/// ends with one.
pub proof fn lemma_groups_text_colons(groups: Seq<u16>)
    ensures
        text_of_groups(groups).len() > 0 ==> text_of_groups(groups)[0] != ':'
            && text_of_groups(groups).last() != ':',
        forall|i: int| !#[trigger] double_at(text_of_groups(groups), ':', i),
{
    let pieces = hex_pieces(groups);
    lemma_hex_pieces(groups);
    if groups.len() > 0 {
        lemma_join_no_double(pieces, ':');
    } else {
        assert(text_of_groups(groups).len() == 0);
    }
}

/// An IPv6 address that is written with `::` for a run of zero groups
/// reads back.
pub proof fn lemma_v6_run_round_trip(groups: Seq<u16>, start: int, len: int)
    requires
        groups.len() == 8,
        0 <= start,
        1 <= len,
        start + len <= 8,
        forall|i: int| start <= i < start + len ==> #[trigger] groups[i] == 0,
    ensures
        ipv6_of_text(
            text_of_groups(groups.take(start)) + seq![':', ':'] + text_of_groups(
                groups.skip(start + len),
            ),
        ) == Some(v6_of_groups(groups)),
        !has_char(
            text_of_groups(groups.take(start)) + seq![':', ':'] + text_of_groups(
                groups.skip(start + len),
            ),
            '.',
        ),
        !has_char(
            text_of_groups(groups.take(start)) + seq![':', ':'] + text_of_groups(
                groups.skip(start + len),
            ),
            '/',
        ),
{
    let head = groups.take(start);
    let tail = groups.skip(start + len);
    let left = text_of_groups(head);
    let right = text_of_groups(tail);
    let s = left + seq![':', ':'] + right;
    lemma_groups_text_colons(head);
    lemma_groups_text_colons(tail);
    lemma_double_colon_between(left, right);
    lemma_groups_round_trip(head, false);
    lemma_groups_round_trip(tail, true);
    assert(head + zero_groups(8 - head.len() - tail.len()) + tail =~= groups);
    assert forall|i: int| 0 <= i < s.len() implies s[i] != '.' && s[i] != '/' by {
        if i < left.len() {
            assert(s[i] == left[i]);
        } else if i >= left.len() + 2 {
            assert(s[i] == right[i - left.len() - 2]);
        }
    }
}

/// An IPv6 address that is written with all its eight groups reads back.
pub proof fn lemma_v6_plain_round_trip(groups: Seq<u16>)
    requires
        groups.len() == 8,
    ensures
        ipv6_of_text(text_of_groups(groups)) == Some(v6_of_groups(groups)),
{
    let s = text_of_groups(groups);
    lemma_groups_text_colons(groups);
    lemma_find_double_colon(s, 0);
    lemma_groups_round_trip(groups, true);
    let at = find_double_colon(s, 0);
    if at < s.len() {
        assert(!double_at(s, ':', at));
    }
}

/// A text that starts with a colon is no dotted decimal.
pub proof fn lemma_colon_first_is_not_v4(s: Seq<char>)
    requires
        s.len() > 0,
        s[0] == ':',
    ensures
        ipv4_of_text(s) is None,
{
    let at = find_from(s, '.', 0);
    lemma_find_from(s, '.', 0);
    let parts = split(s, '.');
    if at < s.len() {
        assert(parts[0] == s.take(at));
        if at > 0 {
            assert(parts[0][0] == ':');
            assert(!is_digit(parts[0][0]));
        }
    }
}

/// A text without a dot is no dotted decimal.
pub proof fn lemma_no_dot_is_not_v4(s: Seq<char>)
    requires
        !has_char(s, '.'),
    ensures
        ipv4_of_text(s) is None,
{
    lemma_split_without(s, '.');
}

/// The two groups that stand for four octets are the groups that the
/// octets were taken from.
pub proof fn lemma_octets_of_group(group: u16)
    ensures
        be_u16((group / 256) as u8, (group % 256) as u8) == group,
{
}

/// An IPv4 address mapped into IPv6 reads back from its text.
pub proof fn lemma_v6_mapped_round_trip(g: u16, h: u16)
    ensures
        ipv6_of_text(
            seq![':', ':', 'f', 'f', 'f', 'f', ':'] + text_of_v4(
                (g / 256) as u8,
                (g % 256) as u8,
                (h / 256) as u8,
                (h % 256) as u8,
            ),
        ) == Some(IpAddress::V6(0, 0, 0, 0, 0, 0xffff, g, h)),
{
    let a = (g / 256) as u8;
    let b = (g % 256) as u8;
    let c = (h / 256) as u8;
    let d = (h % 256) as u8;
    let dotted = text_of_v4(a, b, c, d);
    let s = seq![':', ':', 'f', 'f', 'f', 'f', ':'] + dotted;
    let ffff = seq!['f', 'f', 'f', 'f'];
    assert(s[0] == ':' && s[1] == ':');
    assert(find_double_colon(s, 0) == 0);
    assert(s.take(0) =~= Seq::<char>::empty());
    let after = s.skip(2);
    assert(after =~= ffff + seq![':'] + dotted);
    assert(!has_char(ffff, ':'));
    lemma_split_first(ffff, ':', dotted);
    lemma_v4_chars(a, b, c, d, ':');
    lemma_split_without(dotted, ':');
    let pieces = split(after, ':');
    assert(pieces =~= seq![ffff, dotted]);
    lemma_v4_round_trip(a, b, c, d);
    assert(pieces.skip(1) =~= seq![dotted]);
    assert(groups_of_pieces(pieces.skip(1), true) == Some(groups_of_v4(IpAddress::V4(a, b, c, d))));
    lemma_hex_of_ffff();
    assert forall|i: int| 0 <= i < ffff.len() implies is_hex_digit(#[trigger] ffff[i]) by {
        assert(ffff[i] == 'f');
    }
    assert(group_of_text(ffff) == Some(0xffffu16));
    lemma_octets_of_group(g);
    lemma_octets_of_group(h);
    let tail = seq![0xffffu16, g, h];
    assert(seq![0xffffu16] + groups_of_v4(IpAddress::V4(a, b, c, d)) =~= tail);
    assert(groups_of_pieces(pieces, true) == Some(tail));
    assert(groups_of_text(after, true) == Some(tail));
    let all = Seq::<u16>::empty() + zero_groups(5) + tail;
    assert(all =~= seq![0u16, 0u16, 0u16, 0u16, 0u16, 0xffffu16, g, h]);
}

/// `ffff` writes the largest group.
pub proof fn lemma_hex_of_ffff()
    ensures
        hex_value(seq!['f', 'f', 'f', 'f']) == 0xffff,
        is_hex_digit('f'),
{
    let s4 = seq!['f', 'f', 'f', 'f'];
    let s3 = seq!['f', 'f', 'f'];
    let s2 = seq!['f', 'f'];
    let s1 = seq!['f'];
    assert('f' as int == 102);
    assert(s4.drop_last() =~= s3);
    assert(s3.drop_last() =~= s2);
    assert(s2.drop_last() =~= s1);
    assert(s1.drop_last() =~= Seq::<char>::empty());
    assert(hex_value(s1.drop_last()) == 0);
    assert(hex_value(s1) == 15);
    assert(hex_value(s2) == 255);
    assert(hex_value(s3) == 4095);
    assert(hex_value(s4) == 65535);
}

/// The text of a mapped IPv4 address reads back as IPv6 and not as
/// dotted decimal, and holds no slash.
pub proof fn lemma_mapped_text(groups: Seq<u16>)
    requires
        groups.len() == 8,
        is_v4_mapped(groups),
    ensures
        ipv6_of_text(text_of_v6(groups)) == Some(v6_of_groups(groups)),
        ipv4_of_text(text_of_v6(groups)) is None,
        !has_char(text_of_v6(groups), '/'),
{
    let g = groups[6];
    let h = groups[7];
    let o1 = (g / 256) as u8;
    let o2 = (g % 256) as u8;
    let o3 = (h / 256) as u8;
    let o4 = (h % 256) as u8;
    let dotted = text_of_v4(o1, o2, o3, o4);
    let s = seq![':', ':', 'f', 'f', 'f', 'f', ':'] + dotted;
    assert(text_of_v6(groups) == s);
    lemma_v6_mapped_round_trip(g, h);
    assert(s[0] == ':');
    lemma_colon_first_is_not_v4(s);
    lemma_v4_chars(o1, o2, o3, o4, '/');
    assert forall|i: int| 0 <= i < s.len() implies s[i] != '/' by {
        if i >= 7 {
            assert(s[i] == dotted[i - 7]);
        }
    }
}

/// The text of any other IPv6 address reads back as IPv6 and not as
/// dotted decimal, and holds no slash.
pub proof fn lemma_unmapped_text(groups: Seq<u16>)
    requires
        groups.len() == 8,
        !is_v4_mapped(groups),
    ensures
        ipv6_of_text(text_of_v6(groups)) == Some(v6_of_groups(groups)),
        ipv4_of_text(text_of_v6(groups)) is None,
        !has_char(text_of_v6(groups), '/'),
{
    let s = text_of_v6(groups);
    let run = longest_zero_run(groups, 0);
    lemma_longest_zero_run(groups, 0);
    if run.1 >= 2 {
        lemma_zero_run(groups, run.0);
        lemma_v6_run_round_trip(groups, run.0, run.1);
    } else {
        lemma_v6_plain_round_trip(groups);
        lemma_groups_round_trip(groups, true);
    }
    lemma_no_dot_is_not_v4(s);
}

/// An address reads back from its text, which holds no slash.
pub proof fn lemma_ip_round_trip(ip: IpAddress)
    ensures
        ip_of_text(text_of_ip(ip)) == Some(ip),
        !has_char(text_of_ip(ip), '/'),
{
    match ip {
        IpAddress::V4(a, b, c, d) => {
            lemma_v4_round_trip(a, b, c, d);
            lemma_v4_chars(a, b, c, d, '/');
        },
        IpAddress::V6(a, b, c, d, e, f, g, h) => {
            let groups = groups_of(ip);
            assert(groups.len() == 8);
            assert(v6_of_groups(groups) == ip);
            if is_v4_mapped(groups) {
                lemma_mapped_text(groups);
            } else {
                lemma_unmapped_text(groups);
            }
        },
    }
}

/// Writing a prefix and reading the text again gives the prefix back.
pub proof fn lemma_prefix_round_trip(prefix: RoutingPrefix)
    ensures
        prefix_of_text(text_of_prefix(prefix)) == Ok::<RoutingPrefix, ErrorSpec>(prefix),
{
    let ip_text = text_of_ip(prefix.ip);
    let mask_text = decimal_text(prefix.mask as nat);
    lemma_ip_round_trip(prefix.ip);
    lemma_decimal_text(prefix.mask as nat);
    assert(!has_char(mask_text, '/'));
    lemma_split_first(ip_text, '/', mask_text);
    lemma_split_without(mask_text, '/');
    let parts = split(text_of_prefix(prefix), '/');
    assert(parts =~= seq![ip_text, mask_text]);
    assert(mask_text[0] != '+');
}

} // verus!
