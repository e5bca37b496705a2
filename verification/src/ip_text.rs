//! IP addresses as text: dotted decimal for IPv4, colon-separated
//! hexadecimal groups with `::` for IPv6.

use vstd::prelude::*;

use crate::helper::{be_u16, compose_u16};
use crate::ip_address::IpAddress;
use crate::text::{
    copy_range, decimal_text, decimal_value, is_decimal, is_digit, join, piece_views,
    push_decimal, split, split_chars,
};

verus! {

/// What one part of a dotted IPv4 address reads as: one to three decimal
/// digits without a leading zero, worth at most 255.
pub open spec fn octet_of_text(s: Seq<char>) -> Option<u8> {
    if is_decimal(s) && s.len() <= 3 && (s.len() == 1 || s[0] != '0') && decimal_value(s) <= 255 {
        Some(decimal_value(s) as u8)
    } else {
        None
    }
}

/// What a text reads as in dotted decimal: four octets between three dots.
pub open spec fn ipv4_of_text(s: Seq<char>) -> Option<IpAddress> {
    let parts = split(s, '.');
    if parts.len() == 4 && octet_of_text(parts[0]) is Some && octet_of_text(parts[1]) is Some
        && octet_of_text(parts[2]) is Some && octet_of_text(parts[3]) is Some {
        Some(
            IpAddress::V4(
                octet_of_text(parts[0])->Some_0,
                octet_of_text(parts[1])->Some_0,
                octet_of_text(parts[2])->Some_0,
                octet_of_text(parts[3])->Some_0,
            ),
        )
    } else {
        None
    }
}

/// Whether `c` is a hexadecimal digit, in either case.
pub open spec fn is_hex_digit(c: char) -> bool {
    is_digit(c) || 97 <= c as int <= 102 || 65 <= c as int <= 70
}

/// The value of a hexadecimal digit.
pub open spec fn hex_digit_value(c: char) -> int {
    if is_digit(c) {
        c as int - 48
    } else if 97 <= c as int <= 102 {
        c as int - 87
    } else {
        c as int - 55
    }
}

/// The lower-case hexadecimal digit that stands for `d`.
pub open spec fn hex_digit_char(d: int) -> char {
    if d < 10 {
        (48 + d) as char
    } else {
        (87 + d) as char
    }
}

/// The number that the hexadecimal digits of `s` write.
pub open spec fn hex_value(s: Seq<char>) -> nat
    decreases s.len(),
{
    if s.len() == 0 {
        0
    } else {
        (hex_value(s.drop_last()) * 16 + hex_digit_value(s.last())) as nat
    }
}

/// `n` in lower-case hexadecimal digits, without leading zeros.
pub open spec fn hex_text(n: nat) -> Seq<char>
    decreases n,
{
    if n < 16 {
        seq![hex_digit_char(n as int)]
    } else {
        hex_text(n / 16).push(hex_digit_char((n % 16) as int))
    }
}

/// What one group of an IPv6 address reads as: one to four hexadecimal
/// digits.
pub open spec fn group_of_text(s: Seq<char>) -> Option<u16> {
    if 1 <= s.len() <= 4 && (forall|i: int| 0 <= i < s.len() ==> is_hex_digit(#[trigger] s[i])) {
        Some(hex_value(s) as u16)
    } else {
        None
    }
}

/// The two groups that the four octets of an IPv4 address fill.
pub open spec fn groups_of_v4(ip: IpAddress) -> Seq<u16> {
    match ip {
        IpAddress::V4(a, b, c, d) => seq![be_u16(a, b), be_u16(c, d)],
        _ => Seq::empty(),
    }
}

/// The groups that colon-separated pieces read as. Where `allow_v4` is set,
/// the last piece may be a dotted IPv4 address, which stands for two
/// groups.
pub open spec fn groups_of_pieces(pieces: Seq<Seq<char>>, allow_v4: bool) -> Option<Seq<u16>>
    decreases pieces.len(),
{
    if pieces.len() == 0 {
        Some(Seq::empty())
    } else if pieces.len() == 1 && allow_v4 && ipv4_of_text(pieces[0]) is Some {
        Some(groups_of_v4(ipv4_of_text(pieces[0])->Some_0))
    } else {
        match (group_of_text(pieces[0]), groups_of_pieces(pieces.skip(1), allow_v4)) {
            (Some(group), Some(rest)) => Some(seq![group] + rest),
            _ => None,
        }
    }
}

/// The groups that one side of an IPv6 address reads as; an empty side
/// has none.
pub open spec fn groups_of_text(s: Seq<char>, allow_v4: bool) -> Option<Seq<u16>> {
    if s.len() == 0 {
        Some(Seq::empty())
    } else {
        groups_of_pieces(split(s, ':'), allow_v4)
    }
}

/// The first place at or after `from` where `s` holds two colons in a row,
/// or the length of `s` where there is none.
pub open spec fn find_double_colon(s: Seq<char>, from: int) -> int
    decreases s.len() - from,
{
    if from + 1 >= s.len() {
        s.len() as int
    } else if s[from] == ':' && s[from + 1] == ':' {
        from
    } else {
        find_double_colon(s, from + 1)
    }
}

/// The IPv6 address with the eight groups of `groups`.
pub open spec fn v6_of_groups(groups: Seq<u16>) -> IpAddress {
    IpAddress::V6(
        groups[0],
        groups[1],
        groups[2],
        groups[3],
        groups[4],
        groups[5],
        groups[6],
        groups[7],
    )
}

/// `n` groups that are zero.
pub open spec fn zero_groups(n: int) -> Seq<u16> {
    Seq::new(n as nat, |i: int| 0u16)
}

/// What a text reads as an IPv6 address: eight groups, or fewer groups
/// around one `::` that stands for the zero groups that are missing. A
/// dotted IPv4 address may stand at the very end for the last two groups.
pub open spec fn ipv6_of_text(s: Seq<char>) -> Option<IpAddress> {
    let at = find_double_colon(s, 0);
    if 0 <= at < s.len() {
        match (groups_of_text(s.take(at), false), groups_of_text(s.skip(at + 2), true)) {
            (Some(head), Some(tail)) => if head.len() + tail.len() <= 7 {
                Some(v6_of_groups(head + zero_groups(8 - head.len() - tail.len()) + tail))
            } else {
                None
            },
            _ => None,
        }
    } else {
        match groups_of_text(s, true) {
            Some(groups) => if groups.len() == 8 {
                Some(v6_of_groups(groups))
            } else {
                None
            },
            None => None,
        }
    }
}

/// What a text reads as an address: dotted decimal first, IPv6 otherwise.
pub open spec fn ip_of_text(s: Seq<char>) -> Option<IpAddress> {
    if ipv4_of_text(s) is Some {
        ipv4_of_text(s)
    } else {
        ipv6_of_text(s)
    }
}

/// Sixteen to the power of `i`, for the lengths a group can have.
pub open spec fn sixteen_to(i: int) -> int {
    if i <= 0 {
        1
    } else if i == 1 {
        16
    } else if i == 2 {
        256
    } else if i == 3 {
        4096
    } else {
        65536
    }
}

/// Hexadecimal digits of a given count write a number below sixteen to
/// that count.
pub proof fn lemma_hex_bound(s: Seq<char>)
    requires
        s.len() <= 4,
        forall|i: int| 0 <= i < s.len() ==> is_hex_digit(#[trigger] s[i]),
    ensures
        hex_value(s) < sixteen_to(s.len() as int),
    decreases s.len(),
{
    if s.len() > 0 {
        let front = s.drop_last();
        assert forall|i: int| 0 <= i < front.len() implies is_hex_digit(#[trigger] front[i]) by {
            assert(front[i] == s[i]);
        }
        lemma_hex_bound(front);
        assert(is_hex_digit(s[s.len() - 1]));
    }
}

fn parse_octet(piece: &[char]) -> (r: Option<u8>)
    ensures
        r == octet_of_text(piece@),
{
    let n = piece.len();
    if n == 0 || n > 3 {
        return None;
    }
    proof {
        assert('0' as int == 48 && '9' as int == 57);
    }
    if n > 1 && piece[0] == '0' {
        return None;
    }
    let mut acc: u32 = 0;
    let mut i: usize = 0;
    while i < n
        invariant
            n == piece@.len(),
            0 < n <= 3,
            i <= n,
            forall|j: int| 0 <= j < i ==> is_digit(#[trigger] piece@[j]),
            acc == decimal_value(piece@.take(i as int)),
            acc < sixteen_to(i as int) * 1000,
            i == 0 ==> acc == 0,
            i == 1 ==> acc <= 9,
            i == 2 ==> acc <= 99,
            '0' as int == 48 && '9' as int == 57,
        decreases n - i,
    {
        let c = piece[i];
        if c < '0' || c > '9' {
            return None;
        }
        proof {
            let next = piece@.take(i + 1);
            assert(next.drop_last() =~= piece@.take(i as int));
            assert(next.last() == c);
        }
        acc = acc * 10 + (c as u32 - 48);
        i += 1;
    }
    assert(piece@.take(n as int) =~= piece@);
    if acc > 255 {
        None
    } else {
        Some(acc as u8)
    }
}

fn parse_ipv4(chars: &[char]) -> (r: Option<IpAddress>)
    ensures
        r == ipv4_of_text(chars@),
{
    let parts = split_chars(chars, '.');
    if parts.len() != 4 {
        return None;
    }
    proof {
        let views = piece_views(parts@);
        assert(views[0] == parts@[0]@);
        assert(views[1] == parts@[1]@);
        assert(views[2] == parts@[2]@);
        assert(views[3] == parts@[3]@);
    }
    let a = parse_octet(parts[0].as_slice());
    let b = parse_octet(parts[1].as_slice());
    let c = parse_octet(parts[2].as_slice());
    let d = parse_octet(parts[3].as_slice());
    match (a, b, c, d) {
        (Some(a), Some(b), Some(c), Some(d)) => Some(IpAddress::V4(a, b, c, d)),
        _ => None,
    }
}

fn hex_digit(c: char) -> (r: Option<u32>)
    ensures
        r is Some == is_hex_digit(c),
        r matches Some(d) ==> d == hex_digit_value(c) && d < 16,
{
    let v = c as u32;
    if 48 <= v && v <= 57 {
        Some(v - 48)
    } else if 97 <= v && v <= 102 {
        Some(v - 87)
    } else if 65 <= v && v <= 70 {
        Some(v - 55)
    } else {
        None
    }
}

fn parse_group(piece: &[char]) -> (r: Option<u16>)
    ensures
        r == group_of_text(piece@),
{
    let n = piece.len();
    if n == 0 || n > 4 {
        return None;
    }
    let mut acc: u32 = 0;
    let mut i: usize = 0;
    while i < n
        invariant
            n == piece@.len(),
            0 < n <= 4,
            i <= n,
            forall|j: int| 0 <= j < i ==> is_hex_digit(#[trigger] piece@[j]),
            acc == hex_value(piece@.take(i as int)),
            acc < sixteen_to(i as int),
        decreases n - i,
    {
        let c = piece[i];
        match hex_digit(c) {
            None => {
                return None;
            },
            Some(d) => {
                proof {
                    let next = piece@.take(i + 1);
                    assert(next.drop_last() =~= piece@.take(i as int));
                    assert(next.last() == c);
                }
                acc = acc * 16 + d;
            },
        }
        i += 1;
    }
    assert(piece@.take(n as int) =~= piece@);
    Some(acc as u16)
}

fn parse_groups(chars: &[char], allow_v4: bool) -> (r: Option<Vec<u16>>)
    ensures
        match r {
            Some(groups) => groups_of_text(chars@, allow_v4) == Some(groups@),
            None => groups_of_text(chars@, allow_v4) == None::<Seq<u16>>,
        },
{
    let mut groups: Vec<u16> = Vec::new();
    if chars.len() == 0 {
        return Some(groups);
    }
    let pieces = split_chars(chars, ':');
    let ghost views = piece_views(pieces@);
    let mut i: usize = 0;
    proof {
        assert(views.skip(0) =~= views);
        assert(groups@ + groups_of_pieces(views, allow_v4)->Some_0 =~= groups_of_pieces(
            views,
            allow_v4,
        )->Some_0);
    }
    while i < pieces.len()
        invariant
            i <= pieces@.len(),
            views == piece_views(pieces@),
            views == split(chars@, ':'),
            chars@.len() > 0,
            match groups_of_pieces(views.skip(i as int), allow_v4) {
                Some(rest) => groups_of_pieces(views, allow_v4) == Some(groups@ + rest),
                None => groups_of_pieces(views, allow_v4) == None::<Seq<u16>>,
            },
        decreases pieces@.len() - i,
    {
        let ghost left = views.skip(i as int);
        let ghost before = groups@;
        proof {
            assert(left.len() == pieces@.len() - i);
            assert(left[0] == pieces@[i as int]@);
            assert(left.skip(1) =~= views.skip(i + 1));
        }
        if allow_v4 && i + 1 == pieces.len() {
            match parse_ipv4(pieces[i].as_slice()) {
                Some(IpAddress::V4(a, b, c, d)) => {
                    groups.push(compose_u16(a, b));
                    groups.push(compose_u16(c, d));
                    proof {
                        assert(groups@ =~= before + seq![be_u16(a, b), be_u16(c, d)]);
                    }
                    return Some(groups);
                },
                _ => {},
            }
        }
        match parse_group(pieces[i].as_slice()) {
            None => {
                assert(groups_of_pieces(left, allow_v4) == None::<Seq<u16>>);
                return None;
            },
            Some(group) => {
                groups.push(group);
                proof {
                    match groups_of_pieces(left.skip(1), allow_v4) {
                        Some(rest) => {
                            assert(before + (seq![group] + rest) =~= groups@ + rest);
                        },
                        None => {},
                    }
                }
            },
        }
        i += 1;
    }
    proof {
        assert(groups@ + Seq::<u16>::empty() =~= groups@);
    }
    Some(groups)
}

fn find_double(chars: &[char]) -> (at: usize)
    ensures
        at == find_double_colon(chars@, 0),
        at <= chars@.len(),
        at < chars@.len() ==> at + 2 <= chars@.len(),
{
    let n = chars.len();
    let mut i: usize = 0;
    while n - i > 1 && !(chars[i] == ':' && chars[i + 1] == ':')
        invariant
            n == chars@.len(),
            i <= n,
            find_double_colon(chars@, 0) == find_double_colon(chars@, i as int),
        decreases n - i,
    {
        i += 1;
    }
    if n - i > 1 {
        i
    } else {
        n
    }
}

fn parse_ipv6(chars: &[char]) -> (r: Option<IpAddress>)
    ensures
        r == ipv6_of_text(chars@),
{
    let n = chars.len();
    let at = find_double(chars);
    let mut all: Vec<u16> = Vec::new();
    if at < n {
        let head_chars = copy_range(chars, 0, at);
        let tail_chars = copy_range(chars, at + 2, n);
        proof {
            assert(head_chars@ =~= chars@.take(at as int));
            assert(tail_chars@ =~= chars@.skip(at + 2));
        }
        let head = match parse_groups(head_chars.as_slice(), false) {
            Some(head) => head,
            None => {
                return None;
            },
        };
        let tail = match parse_groups(tail_chars.as_slice(), true) {
            Some(tail) => tail,
            None => {
                return None;
            },
        };
        if head.len() > 7 || tail.len() > 7 - head.len() {
            return None;
        }
        let missing = 8 - head.len() - tail.len();
        let mut i: usize = 0;
        while i < head.len()
            invariant
                i <= head@.len(),
                all@ == head@.take(i as int),
            decreases head@.len() - i,
        {
            all.push(head[i]);
            assert(all@ =~= head@.take(i + 1));
            i += 1;
        }
        assert(head@.take(head@.len() as int) =~= head@);
        let mut z: usize = 0;
        while z < missing
            invariant
                z <= missing,
                all@ == head@ + zero_groups(z as int),
            decreases missing - z,
        {
            all.push(0);
            assert(all@ =~= head@ + zero_groups(z + 1));
            z += 1;
        }
        let mut j: usize = 0;
        while j < tail.len()
            invariant
                j <= tail@.len(),
                all@ == head@ + zero_groups(missing as int) + tail@.take(j as int),
            decreases tail@.len() - j,
        {
            all.push(tail[j]);
            assert(all@ =~= head@ + zero_groups(missing as int) + tail@.take(j + 1));
            j += 1;
        }
        assert(tail@.take(tail@.len() as int) =~= tail@);
    } else {
        all = match parse_groups(chars, true) {
            Some(groups) => groups,
            None => {
                return None;
            },
        };
        if all.len() != 8 {
            return None;
        }
    }
    Some(IpAddress::V6(all[0], all[1], all[2], all[3], all[4], all[5], all[6], all[7]))
}

impl IpAddress {
    /// Reads an address from its text.
    pub fn parse(chars: &[char]) -> (r: Option<IpAddress>)
        ensures
            r == ip_of_text(chars@),
    {
        match parse_ipv4(chars) {
            Some(ip) => Some(ip),
            None => parse_ipv6(chars),
        }
    }
}

/// An IPv4 address in dotted decimal.
pub open spec fn text_of_v4(a: u8, b: u8, c: u8, d: u8) -> Seq<char> {
    join(
        seq![
            decimal_text(a as nat),
            decimal_text(b as nat),
            decimal_text(c as nat),
            decimal_text(d as nat),
        ],
        '.',
    )
}

/// Each group in hexadecimal digits.
pub open spec fn hex_pieces(groups: Seq<u16>) -> Seq<Seq<char>> {
    Seq::new(groups.len(), |i: int| hex_text(groups[i] as nat))
}

/// Groups in hexadecimal digits with a colon between each two; no groups
/// give an empty text.
pub open spec fn text_of_groups(groups: Seq<u16>) -> Seq<char> {
    join(hex_pieces(groups), ':')
}

/// How many groups from `from` on are zero without a break.
pub open spec fn zero_run(groups: Seq<u16>, from: int) -> int
    decreases groups.len() - from,
{
    if 0 <= from < groups.len() && groups[from] == 0 {
        1 + zero_run(groups, from + 1)
    } else {
        0
    }
}

/// The first of the longest runs of zero groups at or after `from`, as its
/// start and its length; the length is 0 where no group is zero.
pub open spec fn longest_zero_run(groups: Seq<u16>, from: int) -> (int, int)
    decreases groups.len() - from,
{
    if from < 0 || from >= groups.len() {
        (0, 0)
    } else {
        let here = zero_run(groups, from);
        let later = longest_zero_run(groups, from + 1);
        if here > 0 && here >= later.1 {
            (from, here)
        } else {
            later
        }
    }
}

/// Whether the groups are those of an IPv4 address mapped into IPv6.
pub open spec fn is_v4_mapped(groups: Seq<u16>) -> bool {
    groups[0] == 0 && groups[1] == 0 && groups[2] == 0 && groups[3] == 0 && groups[4] == 0
        && groups[5] == 0xffff
}

/// An IPv6 address as text: the longest run of two or more zero groups is
/// written `::`, and a mapped IPv4 address is written in dotted decimal
/// after `::ffff:`.
pub open spec fn text_of_v6(groups: Seq<u16>) -> Seq<char> {
    if is_v4_mapped(groups) {
        seq![':', ':', 'f', 'f', 'f', 'f', ':'] + text_of_v4(
            (groups[6] / 256) as u8,
            (groups[6] % 256) as u8,
            (groups[7] / 256) as u8,
            (groups[7] % 256) as u8,
        )
    } else {
        let run = longest_zero_run(groups, 0);
        if run.1 >= 2 {
            text_of_groups(groups.take(run.0)) + seq![':', ':'] + text_of_groups(
                groups.skip(run.0 + run.1),
            )
        } else {
            text_of_groups(groups)
        }
    }
}

/// The eight groups of an IPv6 address; an IPv4 address has none.
pub open spec fn groups_of(ip: IpAddress) -> Seq<u16> {
    match ip {
        IpAddress::V4(..) => Seq::empty(),
        IpAddress::V6(a, b, c, d, e, f, g, h) => seq![a, b, c, d, e, f, g, h],
    }
}

/// An address as text.
pub open spec fn text_of_ip(ip: IpAddress) -> Seq<char> {
    match ip {
        IpAddress::V4(a, b, c, d) => text_of_v4(a, b, c, d),
        IpAddress::V6(..) => text_of_groups_or_run(ip),
    }
}

/// The text of an IPv6 address.
pub open spec fn text_of_groups_or_run(ip: IpAddress) -> Seq<char> {
    text_of_v6(groups_of(ip))
}

/// Joining one more piece puts the separator and the piece at the end.
pub proof fn lemma_join_push(parts: Seq<Seq<char>>, piece: Seq<char>, c: char)
    requires
        parts.len() > 0,
    ensures
        join(parts.push(piece), c) == join(parts, c) + seq![c] + piece,
    decreases parts.len(),
{
    let more = parts.push(piece);
    if parts.len() == 1 {
        assert(more.skip(1) =~= seq![piece]);
        assert(join(more.skip(1), c) == piece);
    } else {
        lemma_join_push(parts.skip(1), piece, c);
        assert(more.skip(1) =~= parts.skip(1).push(piece));
        assert(parts[0] + seq![c] + (join(parts.skip(1), c) + seq![c] + piece) =~= (parts[0]
            + seq![c] + join(parts.skip(1), c)) + seq![c] + piece);
    }
}

fn push_hex(out: &mut Vec<char>, n: u16)
    ensures
        final(out)@ == old(out)@ + hex_text(n as nat),
    decreases n,
{
    if n >= 16 {
        push_hex(out, n / 16);
    }
    let d = (n % 16) as u8;
    if d < 10 {
        out.push((48 + d) as char);
    } else {
        out.push((87 + d) as char);
    }
    proof {
        assert(out@ =~= old(out)@ + hex_text(n as nat));
    }
}

fn push_groups(out: &mut Vec<char>, groups: &Vec<u16>, from: usize, to: usize)
    requires
        from <= to <= groups@.len(),
    ensures
        final(out)@ == old(out)@ + text_of_groups(groups@.subrange(from as int, to as int)),
{
    let mut i: usize = from;
    proof {
        assert(hex_pieces(groups@.subrange(from as int, from as int)) =~= Seq::<
            Seq<char>,
        >::empty());
        assert(out@ =~= old(out)@ + text_of_groups(groups@.subrange(from as int, i as int)));
    }
    while i < to
        invariant
            from <= i <= to <= groups@.len(),
            out@ == old(out)@ + text_of_groups(groups@.subrange(from as int, i as int)),
        decreases to - i,
    {
        let ghost done = hex_pieces(groups@.subrange(from as int, i as int));
        let ghost piece = hex_text(groups@[i as int] as nat);
        proof {
            assert(hex_pieces(groups@.subrange(from as int, i + 1)) =~= done.push(piece));
            if i > from {
                lemma_join_push(done, piece, ':');
            } else {
                assert(done.push(piece) =~= seq![piece]);
                assert(join(seq![piece], ':') == piece);
                assert(join(done, ':') =~= Seq::<char>::empty());
            }
        }
        if i > from {
            out.push(':');
        }
        push_hex(out, groups[i]);
        proof {
            assert(out@ =~= old(out)@ + text_of_groups(groups@.subrange(from as int, i + 1)));
        }
        i += 1;
    }
}

fn find_zero_run(groups: &Vec<u16>) -> (run: (usize, usize))
    requires
        groups@.len() <= 8,
    ensures
        (run.0 as int, run.1 as int) == longest_zero_run(groups@, 0),
        run.0 + run.1 <= groups@.len(),
{
    let n = groups.len();
    let mut here: usize = 0;
    let mut best: (usize, usize) = (0, 0);
    let mut i: usize = n;
    while i > 0
        invariant
            n == groups@.len(),
            n <= 8,
            i <= n,
            here == zero_run(groups@, i as int),
            (best.0 as int, best.1 as int) == longest_zero_run(groups@, i as int),
            here <= n - i,
            best.0 + best.1 <= n,
        decreases i,
    {
        i -= 1;
        if groups[i] == 0 {
            here += 1;
        } else {
            here = 0;
        }
        if here > 0 && here >= best.1 {
            best = (i, here);
        }
    }
    best
}

fn push_v4(out: &mut Vec<char>, a: u8, b: u8, c: u8, d: u8)
    ensures
        final(out)@ == old(out)@ + text_of_v4(a, b, c, d),
{
    let ghost parts = seq![
        decimal_text(a as nat),
        decimal_text(b as nat),
        decimal_text(c as nat),
        decimal_text(d as nat),
    ];
    proof {
        let from_b = parts.skip(1);
        let from_c = from_b.skip(1);
        let from_d = from_c.skip(1);
        assert(from_d.len() == 1 && from_d[0] == decimal_text(d as nat));
        assert(join(from_d, '.') == decimal_text(d as nat));
        assert(from_c.len() == 2 && from_c[0] == decimal_text(c as nat));
        assert(join(from_c, '.') == decimal_text(c as nat) + seq!['.'] + join(from_d, '.'));
        assert(from_b.len() == 3 && from_b[0] == decimal_text(b as nat));
        assert(join(from_b, '.') == decimal_text(b as nat) + seq!['.'] + join(from_c, '.'));
        assert(join(parts, '.') == decimal_text(a as nat) + seq!['.'] + join(from_b, '.'));
    }
    push_decimal(out, a as u32);
    out.push('.');
    push_decimal(out, b as u32);
    out.push('.');
    push_decimal(out, c as u32);
    out.push('.');
    push_decimal(out, d as u32);
    proof {
        assert(out@ =~= old(out)@ + text_of_v4(a, b, c, d));
    }
}

impl IpAddress {
    /// The address as characters.
    pub fn to_chars(&self) -> (chars: Vec<char>)
        ensures
            chars@ == text_of_ip(*self),
    {
        let mut out: Vec<char> = Vec::new();
        match *self {
            IpAddress::V4(a, b, c, d) => {
                push_v4(&mut out, a, b, c, d);
                assert(out@ =~= text_of_v4(a, b, c, d));
            },
            IpAddress::V6(a, b, c, d, e, f, g, h) => {
                let mut groups: Vec<u16> = Vec::new();
                groups.push(a);
                groups.push(b);
                groups.push(c);
                groups.push(d);
                groups.push(e);
                groups.push(f);
                groups.push(g);
                groups.push(h);
                assert(groups@ =~= groups_of(*self));
                if a == 0 && b == 0 && c == 0 && d == 0 && e == 0 && f == 0xffff {
                    out.push(':');
                    out.push(':');
                    out.push('f');
                    out.push('f');
                    out.push('f');
                    out.push('f');
                    out.push(':');
                    assert(out@ =~= seq![':', ':', 'f', 'f', 'f', 'f', ':']);
                    push_v4(&mut out, (g / 256) as u8, (g % 256) as u8, (h / 256) as u8, (h
                        % 256) as u8);
                } else {
                    let run = find_zero_run(&groups);
                    if run.1 >= 2 {
                        push_groups(&mut out, &groups, 0, run.0);
                        out.push(':');
                        out.push(':');
                        push_groups(&mut out, &groups, run.0 + run.1, 8);
                        proof {
                            assert(groups@.subrange(0, run.0 as int) =~= groups@.take(
                                run.0 as int,
                            ));
                            assert(groups@.subrange(run.0 + run.1, 8) =~= groups@.skip(
                                run.0 + run.1,
                            ));
                            assert(out@ =~= text_of_groups(groups@.take(run.0 as int)) + seq![
                                ':',
                                ':',
                            ] + text_of_groups(groups@.skip(run.0 + run.1)));
                        }
                    } else {
                        push_groups(&mut out, &groups, 0, 8);
                        proof {
                            assert(groups@.subrange(0, 8) =~= groups@);
                            assert(out@ =~= text_of_groups(groups@));
                        }
                    }
                }
            },
        }
        out
    }
}

} // verus!
