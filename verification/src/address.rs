//! Socket addresses in their text form.

use vstd::prelude::*;
use vstd::slice::*;

verus! {

/// The value of `c` as a digit: `0` to `9` for the decimal digits, `10` to
/// `15` for the letters `a` to `f` in either case, and `-1` for any other
/// character.
pub open spec fn digit_value(c: char) -> int {
    if '0' <= c <= '9' {
        c as int - '0' as int
    } else if 'a' <= c <= 'f' {
        c as int - 'a' as int + 10
    } else if 'A' <= c <= 'F' {
        c as int - 'A' as int + 10
    } else {
        -1
    }
}

/// Whether `s` is a numeral in base `radix`: one digit or more, and nothing
/// else.
pub open spec fn is_numeral(s: Seq<char>, radix: int) -> bool {
    &&& s.len() > 0
    &&& forall|i: int| 0 <= i < s.len() ==> 0 <= #[trigger] digit_value(s[i]) < radix
}

/// The number that the digits of `s` spell in base 16 or, for any other
/// `radix`, in base 10. Leading zeros count for nothing.
pub open spec fn numeral_value(s: Seq<char>, radix: int) -> int
    decreases s.len(),
{
    if s.len() == 0 {
        0
    } else if radix == 16 {
        numeral_value(s.drop_last(), radix) * 16 + digit_value(s.last())
    } else {
        numeral_value(s.drop_last(), radix) * 10 + digit_value(s.last())
    }
}

/// The number that `s` stands for, if `s` is a numeral in base `radix` and
/// the number is no more than `limit`.
pub open spec fn number(s: Seq<char>, radix: int, limit: int) -> Option<int> {
    if is_numeral(s, radix) && numeral_value(s, radix) <= limit {
        Some(numeral_value(s, radix))
    } else {
        None
    }
}

/// A numeral is worth at least as much as any of its prefixes.
proof fn lemma_numeral_grows(s: Seq<char>, radix: int, n: int)
    requires
        is_numeral(s, radix),
        0 <= n <= s.len(),
    ensures
        0 <= numeral_value(s.take(n), radix) <= numeral_value(s, radix),
    decreases s.len() - n,
{
    if n == s.len() {
        assert(s.take(n) =~= s);
        lemma_numeral_nonnegative(s, radix);
    } else {
        lemma_numeral_grows(s, radix, n + 1);
        let longer = s.take(n + 1);
        assert(longer.drop_last() =~= s.take(n));
        assert(longer.last() == s[n]);
        assert(is_numeral(longer, radix));
        lemma_numeral_nonnegative(s.take(n), radix);
    }
}

proof fn lemma_numeral_nonnegative(s: Seq<char>, radix: int)
    requires
        forall|i: int| 0 <= i < s.len() ==> 0 <= #[trigger] digit_value(s[i]),
    ensures
        0 <= numeral_value(s, radix),
    decreases s.len(),
{
    if s.len() > 0 {
        lemma_numeral_nonnegative(s.drop_last(), radix);
    }
}

/// The value of `c` as a digit in base `radix`, if it is one.
fn digit(c: char, radix: u32) -> (value: Option<u32>)
    requires
        radix == 10 || radix == 16,
    ensures
        value == if 0 <= digit_value(c) < radix {
            Some(digit_value(c) as u32)
        } else {
            None
        },
{
    if '0' <= c && c <= '9' {
        Some(c as u32 - '0' as u32)
    } else if radix == 16 && 'a' <= c && c <= 'f' {
        Some(c as u32 - 'a' as u32 + 10)
    } else if radix == 16 && 'A' <= c && c <= 'F' {
        Some(c as u32 - 'A' as u32 + 10)
    } else {
        None
    }
}

/// Reads `text` as a number in base `radix` that is no more than `limit`.
fn parse_number(text: &[char], radix: u32, limit: u32) -> (value: Option<u32>)
    requires
        radix == 10 || radix == 16,
    ensures
        match value {
            Some(n) => number(text@, radix as int, limit as int) == Some(n as int),
            None => number(text@, radix as int, limit as int) is None,
        },
{
    if text.len() == 0 {
        return None;
    }
    let mut total: u64 = 0;
    let mut i: usize = 0;
    while i < text.len()
        invariant
            radix == 10 || radix == 16,
            0 <= i <= text.len(),
            is_numeral(text@.take(i as int), radix as int) || i == 0,
            total == numeral_value(text@.take(i as int), radix as int),
            total <= limit,
        decreases text.len() - i,
    {
        let ghost before = text@.take(i as int);
        let ghost after = text@.take(i + 1);
        proof {
            assert(after.drop_last() =~= before);
            assert(after.last() == text@[i as int]);
        }
        match digit(text[i], radix) {
            None => {
                return None;
            },
            Some(d) => {
                let next: u64 = if radix == 16 {
                    total * 16 + d as u64
                } else {
                    total * 10 + d as u64
                };
                proof {
                    assert(is_numeral(after, radix as int)) by {
                        assert forall|j: int| 0 <= j < after.len() implies 0 <= #[trigger] digit_value(
                            after[j],
                        ) < radix by {
                            if j < i {
                                assert(after[j] == before[j]);
                            }
                        }
                    }
                    assert(next == numeral_value(after, radix as int));
                }
                if next > limit as u64 {
                    proof {
                        if is_numeral(text@, radix as int) {
                            lemma_numeral_grows(text@, radix as int, i + 1);
                        }
                    }
                    return None;
                }
                total = next;
            },
        }
        i += 1;
    }
    proof {
        assert(text@.take(i as int) =~= text@);
    }
    Some(total as u32)
}

/// The characters of `text`, one by one.
fn chars_of(text: &str) -> (chars: Vec<char>)
    ensures
        chars@ == text@,
{
    let mut chars: Vec<char> = Vec::new();
    for c in it: text.chars()
        invariant
            chars@ == it.seq().take(it.index()),
    {
        chars.push(c);
    }
    chars
}

/// The fields of `s`: the stretches of `s` between one `sep` and the next.
/// Text without a `sep` is one field, and each `sep` opens a new one, so
/// there is always one field more than there are separators.
pub open spec fn split(s: Seq<char>, sep: char) -> Seq<Seq<char>>
    decreases s.len(),
{
    if s.len() == 0 {
        seq![Seq::empty()]
    } else {
        let before = split(s.drop_last(), sep);
        if s.last() == sep {
            before.push(Seq::empty())
        } else {
            before.drop_last().push(before.last().push(s.last()))
        }
    }
}

/// Text without a separator is one field.
pub proof fn lemma_split_plain(s: Seq<char>, sep: char)
    requires
        !s.contains(sep),
    ensures
        split(s, sep) == seq![s],
    decreases s.len(),
{
    if s.len() == 0 {
        assert(s =~= Seq::<char>::empty());
    } else {
        let shorter = s.drop_last();
        assert forall|i: int| 0 <= i < shorter.len() implies shorter[i] != sep by {
            assert(s.contains(s[i]));
        }
        lemma_split_plain(shorter, sep);
        assert(s.last() != sep) by {
            assert(s.contains(s[s.len() - 1]));
        }
        let before = split(shorter, sep);
        assert(before.drop_last() =~= Seq::<Seq<char>>::empty());
        assert(before.last().push(s.last()) =~= s);
        assert(split(s, sep) =~= seq![s]);
    }
}

/// The fields of two texts joined by a separator are the fields of the
/// first, then those of the second.
pub proof fn lemma_split_join(a: Seq<char>, b: Seq<char>, sep: char)
    ensures
        split(a + seq![sep] + b, sep) == split(a, sep) + split(b, sep),
    decreases b.len(),
{
    let whole = a + seq![sep] + b;
    if b.len() == 0 {
        assert(whole.drop_last() =~= a);
        assert(split(whole, sep) =~= split(a, sep) + split(b, sep));
    } else {
        let shorter = b.drop_last();
        lemma_split_join(a, shorter, sep);
        lemma_last_field(shorter, sep);
        assert(whole.drop_last() =~= a + seq![sep] + shorter);
        assert(whole.last() == b.last());
        assert(split(whole, sep) =~= split(a, sep) + split(b, sep));
    }
}

/// A numeral with one more digit is worth its base times the numeral, and
/// the digit.
pub proof fn lemma_numeral_push(s: Seq<char>, c: char, radix: int)
    ensures
        numeral_value(s.push(c), radix) == if radix == 16 {
            numeral_value(s, radix) * 16 + digit_value(c)
        } else {
            numeral_value(s, radix) * 10 + digit_value(c)
        },
{
    assert(s.push(c).drop_last() =~= s);
}

/// The texts that `fields` holds.
pub open spec fn texts(fields: Seq<&[char]>) -> Seq<Seq<char>> {
    Seq::new(fields.len(), |i: int| fields[i]@)
}

/// The last field of `s` is the end of `s`, and where there is another
/// field before it, a `sep` stands between the two.
proof fn lemma_last_field(s: Seq<char>, sep: char)
    ensures
        split(s, sep).len() >= 1,
        split(s, sep).last().len() <= s.len(),
        split(s, sep).last() == s.skip(s.len() - split(s, sep).last().len()),
        split(s, sep).len() >= 2 ==> split(s, sep).last().len() < s.len() && s[s.len() - split(
            s,
            sep,
        ).last().len() - 1] == sep,
        split(s, sep).len() == 1 ==> split(s, sep).last() == s,
    decreases s.len(),
{
    if s.len() == 0 {
        assert(split(s, sep).last() =~= s.skip(0));
        assert(split(s, sep).last() =~= s);
    } else {
        let shorter = s.drop_last();
        lemma_last_field(shorter, sep);
        let before = split(shorter, sep);
        let last = split(s, sep).last();
        if s.last() == sep {
            assert(last =~= s.skip(s.len() - 0));
        } else {
            assert(last == before.last().push(s.last()));
            assert(last =~= s.skip(s.len() - last.len()));
            if before.len() == 1 {
                assert(last =~= s);
            }
        }
    }
}

/// Cuts `text` into its fields.
fn split_fields<'a>(text: &'a [char], sep: char) -> (fields: Vec<&'a [char]>)
    ensures
        texts(fields@) == split(text@, sep),
{
    let mut fields: Vec<&'a [char]> = Vec::new();
    let mut start: usize = 0;
    let mut i: usize = 0;
    proof {
        assert(text@.take(0) =~= Seq::<char>::empty());
        assert(text@.subrange(0, 0) =~= Seq::<char>::empty());
        assert(split(text@.take(0), sep) =~= texts(fields@).push(text@.subrange(0, 0)));
    }
    while i < text.len()
        invariant
            0 <= start <= i <= text.len(),
            split(text@.take(i as int), sep) == texts(fields@).push(
                text@.subrange(start as int, i as int),
            ),
        decreases text.len() - i,
    {
        let ghost done = texts(fields@);
        let ghost field = text@.subrange(start as int, i as int);
        proof {
            assert(text@.take(i + 1).drop_last() =~= text@.take(i as int));
            assert(done.push(field).drop_last() =~= done);
        }
        if text[i] == sep {
            fields.push(slice_subrange(text, start, i));
            start = i + 1;
            proof {
                assert(texts(fields@) =~= done.push(field));
                assert(text@.subrange(start as int, i + 1) =~= Seq::<char>::empty());
            }
        } else {
            proof {
                assert(text@.subrange(start as int, i + 1) =~= field.push(text@[i as int]));
            }
        }
        i += 1;
    }
    let ghost done = texts(fields@);
    let last = slice_subrange(text, start, i);
    fields.push(last);
    proof {
        assert(text@.take(i as int) =~= text@);
        assert(texts(fields@) =~= done.push(last@));
    }
    fields
}

/// One number of a dotted quad: a decimal numeral of at most three digits
/// that is no more than 255 and has no zero in front of another digit.
pub open spec fn octet(s: Seq<char>) -> Option<int> {
    if s.len() <= 3 && (s.len() > 1 ==> s[0] != '0') {
        number(s, 10, 255)
    } else {
        None
    }
}

/// One group of an IPv6 address: a numeral of at most four hexadecimal
/// digits.
pub open spec fn hex_group(s: Seq<char>) -> Option<int> {
    if s.len() <= 4 {
        number(s, 16, 65535)
    } else {
        None
    }
}

/// The four octets that `s` spells as a dotted quad, such as `127.0.0.1`.
pub open spec fn ipv4_octets(s: Seq<char>) -> Option<Seq<u8>> {
    let fields = split(s, '.');
    if fields.len() == 4 && (forall|i: int| 0 <= i < 4 ==> (#[trigger] octet(fields[i])) is Some) {
        Some(Seq::new(4, |i: int| octet(fields[i]).unwrap() as u8))
    } else {
        None
    }
}

fn parse_octet(text: &[char]) -> (value: Option<u8>)
    ensures
        match value {
            Some(n) => octet(text@) == Some(n as int),
            None => octet(text@) is None,
        },
{
    if text.len() > 3 || (text.len() > 1 && text[0] == '0') {
        return None;
    }
    match parse_number(text, 10, 255) {
        Some(n) => Some(n as u8),
        None => None,
    }
}

fn parse_hex_group(text: &[char]) -> (value: Option<u16>)
    ensures
        match value {
            Some(n) => hex_group(text@) == Some(n as int),
            None => hex_group(text@) is None,
        },
{
    if text.len() > 4 {
        return None;
    }
    match parse_number(text, 16, 65535) {
        Some(n) => Some(n as u16),
        None => None,
    }
}

/// Reads `text` as a dotted quad.
fn parse_ipv4(text: &[char]) -> (octets: Option<[u8; 4]>)
    ensures
        match octets {
            Some(o) => ipv4_octets(text@) == Some(o@),
            None => ipv4_octets(text@) is None,
        },
{
    let fields = split_fields(text, '.');
    if fields.len() != 4 {
        return None;
    }
    let mut octets: [u8; 4] = [0u8; 4];
    let mut i: usize = 0;
    while i < 4
        invariant
            0 <= i <= 4,
            fields.len() == 4,
            texts(fields@) == split(text@, '.'),
            forall|j: int|
                0 <= j < i ==> (#[trigger] octet(texts(fields@)[j])) == Some(octets@[j] as int),
        decreases 4 - i,
    {
        match parse_octet(fields[i]) {
            None => {
                proof {
                    assert(octet(texts(fields@)[i as int]) is None);
                }
                return None;
            },
            Some(value) => {
                let ghost before = octets@;
                octets[i] = value;
                assert(octets@ == before.update(i as int, value));
            },
        }
        i += 1;
    }
    proof {
        assert(octets@ =~= ipv4_octets(text@).unwrap());
    }
    Some(octets)
}

/// The numbers that `fields` spell, each read as a group of hexadecimal
/// digits.
pub open spec fn groups(fields: Seq<Seq<char>>) -> Seq<u16> {
    Seq::new(fields.len(), |i: int| hex_group(fields[i]).unwrap() as u16)
}

/// Whether each of `fields` is a group of hexadecimal digits.
pub open spec fn all_groups(fields: Seq<Seq<char>>) -> bool {
    forall|i: int| 0 <= i < fields.len() ==> (#[trigger] hex_group(fields[i])) is Some
}

/// The 16-bit pieces that `s` spells as a list with colons between its
/// fields. Each field is a group of hexadecimal digits and stands for one
/// piece. Where `dotted` allows it, the last field may be a dotted quad
/// instead, which stands for two pieces: its first two octets, then its last
/// two, the earlier octet of each pair being the upper half.
pub open spec fn pieces(s: Seq<char>, dotted: bool) -> Option<Seq<u16>> {
    let fields = split(s, ':');
    let front = fields.drop_last();
    let last = fields.last();
    if !all_groups(front) {
        None
    } else if hex_group(last) is Some {
        Some(groups(front).push(hex_group(last).unwrap() as u16))
    } else if dotted && ipv4_octets(last) is Some {
        let quad = ipv4_octets(last).unwrap();
        Some(
            groups(front).push((quad[0] * 256 + quad[1]) as u16).push(
                (quad[2] * 256 + quad[3]) as u16,
            ),
        )
    } else {
        None
    }
}

/// Reads `text` as a list of pieces with colons between them.
fn parse_pieces(text: &[char], dotted: bool) -> (found: Option<Vec<u16>>)
    ensures
        match found {
            Some(list) => pieces(text@, dotted) == Some(list@),
            None => pieces(text@, dotted) is None,
        },
{
    let fields = split_fields(text, ':');
    proof {
        lemma_last_field(text@, ':');
    }
    let count = fields.len();
    let ghost front = texts(fields@).drop_last();
    let mut list: Vec<u16> = Vec::new();
    let mut i: usize = 0;
    while i + 1 < count
        invariant
            0 <= i < count,
            count == fields.len(),
            texts(fields@) == split(text@, ':'),
            front == texts(fields@).drop_last(),
            all_groups(front.take(i as int)),
            list@ == groups(front.take(i as int)),
        decreases count - i,
    {
        let ghost seen = front.take(i as int);
        let ghost more = front.take(i + 1);
        match parse_hex_group(fields[i]) {
            None => {
                proof {
                    assert(front[i as int] == fields[i as int]@);
                    assert(hex_group(front[i as int]) is None);
                }
                return None;
            },
            Some(group) => {
                list.push(group);
                proof {
                    assert(more[i as int] == front[i as int]);
                    assert forall|j: int| 0 <= j < more.len() implies (#[trigger] hex_group(
                        more[j],
                    )) is Some by {
                        if j < i {
                            assert(more[j] == seen[j]);
                        }
                    }
                    assert(list@ =~= groups(more));
                }
            },
        }
        i += 1;
    }
    proof {
        assert(front.take(i as int) =~= front);
    }
    let last = fields[count - 1];
    match parse_hex_group(last) {
        Some(group) => {
            list.push(group);
            Some(list)
        },
        None => {
            if !dotted {
                return None;
            }
            match parse_ipv4(last) {
                None => None,
                Some(quad) => {
                    let upper: u16 = quad[0] as u16 * 256 + quad[1] as u16;
                    let lower: u16 = quad[2] as u16 * 256 + quad[3] as u16;
                    list.push(upper);
                    list.push(lower);
                    Some(list)
                },
            }
        },
    }
}

/// Where the first `::` of `s` at or after `from` begins, if there is one.
pub open spec fn gap_from(s: Seq<char>, from: int) -> Option<int>
    decreases s.len() - from,
{
    if from < 0 || from + 1 >= s.len() {
        None
    } else if s[from] == ':' && s[from + 1] == ':' {
        Some(from)
    } else {
        gap_from(s, from + 1)
    }
}

/// Finds the first `::` of `text`.
fn find_gap(text: &[char]) -> (found: Option<usize>)
    ensures
        match found {
            Some(at) => gap_from(text@, 0) == Some(at as int) && at + 2 <= text@.len(),
            None => gap_from(text@, 0) is None,
        },
{
    let mut i: usize = 0;
    while i < text.len() && i + 1 < text.len()
        invariant
            0 <= i <= text.len(),
            gap_from(text@, 0) == gap_from(text@, i as int),
        decreases text.len() - i,
    {
        if text[i] == ':' && text[i + 1] == ':' {
            return Some(i);
        }
        i += 1;
    }
    None
}

/// The pieces on one side of a `::`, where nothing at all stands for no
/// pieces.
pub open spec fn side_pieces(s: Seq<char>, dotted: bool) -> Option<Seq<u16>> {
    if s.len() == 0 {
        Some(Seq::empty())
    } else {
        pieces(s, dotted)
    }
}

/// The eight segments that `s` spells as an IPv6 address.
///
/// Without a `::` the text is a list of eight pieces. With one, the lists on
/// its two sides hold seven pieces at most between them, and the `::` stands
/// for as many zero segments as it takes to make eight. A dotted quad can
/// only end the whole address.
pub open spec fn ipv6_segments(s: Seq<char>) -> Option<Seq<u16>> {
    match gap_from(s, 0) {
        None => {
            let whole = pieces(s, true);
            if whole is Some && whole.unwrap().len() == 8 {
                whole
            } else {
                None
            }
        },
        Some(at) => {
            let head = side_pieces(s.take(at), false);
            let tail = side_pieces(s.skip(at + 2), true);
            if head is Some && tail is Some && head.unwrap().len() + tail.unwrap().len() <= 7 {
                let zeros = Seq::new(
                    (8 - head.unwrap().len() - tail.unwrap().len()) as nat,
                    |i: int| 0u16,
                );
                Some(head.unwrap() + zeros + tail.unwrap())
            } else {
                None
            }
        },
    }
}

fn parse_side(text: &[char], dotted: bool) -> (found: Option<Vec<u16>>)
    ensures
        match found {
            Some(list) => side_pieces(text@, dotted) == Some(list@),
            None => side_pieces(text@, dotted) is None,
        },
{
    if text.len() == 0 {
        Some(Vec::new())
    } else {
        parse_pieces(text, dotted)
    }
}

/// Reads `text` as an IPv6 address.
fn parse_ipv6(text: &[char]) -> (segments: Option<[u16; 8]>)
    ensures
        match segments {
            Some(s) => ipv6_segments(text@) == Some(s@),
            None => ipv6_segments(text@) is None,
        },
{
    let mut segments: [u16; 8] = [0u16; 8];
    match find_gap(text) {
        None => {
            match parse_pieces(text, true) {
                None => None,
                Some(list) => {
                    if list.len() != 8 {
                        return None;
                    }
                    let mut i: usize = 0;
                    while i < 8
                        invariant
                            0 <= i <= 8,
                            list.len() == 8,
                            forall|j: int| 0 <= j < i ==> segments@[j] == list@[j],
                        decreases 8 - i,
                    {
                        let ghost before = segments@;
                        segments[i] = list[i];
                        assert(segments@ == before.update(i as int, list@[i as int]));
                        i += 1;
                    }
                    proof {
                        assert(segments@ =~= list@);
                    }
                    Some(segments)
                },
            }
        },
        Some(at) => {
            let end = text.len();
            let head = match parse_side(slice_subrange(text, 0, at), false) {
                None => {
                    return None;
                },
                Some(list) => list,
            };
            let tail = match parse_side(slice_subrange(text, at + 2, end), true) {
                None => {
                    return None;
                },
                Some(list) => list,
            };
            if head.len() > 7 || tail.len() > 7 - head.len() {
                return None;
            }
            let shift: usize = 8 - tail.len();
            let ghost zeros = Seq::new((8 - head.len() - tail.len()) as nat, |i: int| 0u16);
            let ghost wanted = head@ + zeros + tail@;
            let mut i: usize = 0;
            while i < head.len()
                invariant
                    0 <= i <= head.len() <= 7,
                    forall|j: int| 0 <= j < i ==> segments@[j] == head@[j],
                    forall|j: int| i <= j < 8 ==> segments@[j] == 0,
                decreases head.len() - i,
            {
                let ghost before = segments@;
                segments[i] = head[i];
                assert(segments@ == before.update(i as int, head@[i as int]));
                i += 1;
            }
            let mut k: usize = 0;
            while k < tail.len()
                invariant
                    0 <= k <= tail.len(),
                    head.len() + tail.len() <= 7,
                    shift == 8 - tail.len(),
                    forall|j: int| 0 <= j < head.len() ==> segments@[j] == head@[j],
                    forall|j: int| head.len() <= j < shift + k ==> segments@[j] == wanted[j],
                    forall|j: int| shift + k <= j < 8 ==> segments@[j] == 0,
                    wanted == head@ + zeros + tail@,
                    zeros.len() == 8 - head.len() - tail.len(),
                    forall|j: int| 0 <= j < zeros.len() ==> zeros[j] == 0,
                decreases tail.len() - k,
            {
                let ghost before = segments@;
                segments[shift + k] = tail[k];
                assert(segments@ == before.update(shift + k, tail@[k as int]));
                assert(wanted[shift + k] == tail@[k as int]);
                k += 1;
            }
            proof {
                assert(text@.subrange(0, at as int) =~= text@.take(at as int));
                assert(text@.subrange(at + 2, text@.len() as int) =~= text@.skip(at + 2));
                assert(segments@ =~= wanted);
            }
            Some(segments)
        },
    }
}

/// A network address to listen on: a host and a port.
#[derive(Debug, Clone, Copy, PartialEq, Eq)]
pub enum BindAddress {
    /// An IPv4 host, as its four octets, and a port.
    V4 { octets: [u8; 4], port: u16 },
    /// An IPv6 host, as its eight segments, a port, and the scope that the
    /// host is to be looked up in (`0` where none was given).
    V6 { segments: [u16; 8], port: u16, scope_id: u32 },
}

/// A `BindAddress` with the numbers of its host as a sequence.
pub enum BindAddressView {
    V4 { octets: Seq<u8>, port: u16 },
    V6 { segments: Seq<u16>, port: u16, scope_id: u32 },
}

impl View for BindAddress {
    type V = BindAddressView;

    open spec fn view(&self) -> BindAddressView {
        match self {
            BindAddress::V4 { octets, port } => BindAddressView::V4 { octets: octets@, port: *port },
            BindAddress::V6 { segments, port, scope_id } => BindAddressView::V6 {
                segments: segments@,
                port: *port,
                scope_id: *scope_id,
            },
        }
    }
}

/// The scope that the fields of a bracketed host give: none is scope `0`,
/// and what follows a `%` is the scope as a decimal number of 32 bits.
pub open spec fn scope(parts: Seq<Seq<char>>) -> Option<int> {
    if parts.len() == 1 {
        Some(0)
    } else if parts.len() == 2 {
        number(parts[1], 10, 0xffff_ffff)
    } else {
        None
    }
}

/// The segments and the scope that `host` spells as an IPv6 host in square
/// brackets: `[`, the address, then `%` and a scope or neither, and `]`.
pub open spec fn bracketed_host(host: Seq<char>) -> Option<(Seq<u16>, u32)> {
    if host.len() >= 2 && host.first() == '[' && host.last() == ']' {
        let parts = split(host.subrange(1, host.len() - 1), '%');
        let segments = ipv6_segments(parts[0]);
        if segments is Some && scope(parts) is Some {
            Some((segments.unwrap(), scope(parts).unwrap() as u32))
        } else {
            None
        }
    } else {
        None
    }
}

/// The address that `s` spells: a host, a colon, and a port.
///
/// The port is what follows the last colon, a decimal number of 16 bits. The
/// host before that colon is a dotted quad, or an IPv6 address in square
/// brackets. Any other text spells no address.
pub open spec fn socket_address(s: Seq<char>) -> Option<BindAddressView> {
    let fields = split(s, ':');
    let port = number(fields.last(), 10, 65535);
    if fields.len() < 2 || port is None {
        None
    } else {
        let host = s.take(s.len() - fields.last().len() - 1);
        if ipv4_octets(host) is Some {
            Some(
                BindAddressView::V4 { octets: ipv4_octets(host).unwrap(), port: port.unwrap() as u16 },
            )
        } else if bracketed_host(host) is Some {
            Some(
                BindAddressView::V6 {
                    segments: bracketed_host(host).unwrap().0,
                    port: port.unwrap() as u16,
                    scope_id: bracketed_host(host).unwrap().1,
                },
            )
        } else {
            None
        }
    }
}

/// Reads `host` as an IPv6 host in square brackets.
fn parse_bracketed(host: &[char]) -> (found: Option<([u16; 8], u32)>)
    ensures
        match found {
            Some((segments, scope_id)) => bracketed_host(host@) == Some((segments@, scope_id)),
            None => bracketed_host(host@) is None,
        },
{
    let len = host.len();
    if len < 2 || host[0] != '[' || host[len - 1] != ']' {
        return None;
    }
    let parts = split_fields(slice_subrange(host, 1, len - 1), '%');
    proof {
        lemma_last_field(host@.subrange(1, len - 1), '%');
    }
    let scope_id: u32 = if parts.len() == 1 {
        0
    } else if parts.len() == 2 {
        match parse_number(parts[1], 10, 0xffff_ffff) {
            None => {
                return None;
            },
            Some(n) => n,
        }
    } else {
        return None;
    };
    match parse_ipv6(parts[0]) {
        None => None,
        Some(segments) => Some((segments, scope_id)),
    }
}

impl BindAddress {
    /// Reads `text` as a socket address, such as `127.0.0.1:3000` or
    /// `[::1]:8080`.
    pub fn parse(text: &str) -> (address: Option<BindAddress>)
        ensures
            match address {
                Some(a) => socket_address(text@) == Some(a@),
                None => socket_address(text@) is None,
            },
    {
        let chars = chars_of(text);
        let all = chars.as_slice();
        let fields = split_fields(all, ':');
        proof {
            lemma_last_field(all@, ':');
        }
        if fields.len() < 2 {
            return None;
        }
        let port_text = fields[fields.len() - 1];
        let port: u16 = match parse_number(port_text, 10, 65535) {
            None => {
                return None;
            },
            Some(n) => n as u16,
        };
        let host = slice_subrange(all, 0, all.len() - port_text.len() - 1);
        proof {
            assert(host@ =~= text@.take(text@.len() - port_text@.len() - 1));
        }
        match parse_ipv4(host) {
            Some(octets) => Some(BindAddress::V4 { octets, port }),
            None => match parse_bracketed(host) {
                Some((segments, scope_id)) => Some(BindAddress::V6 { segments, port, scope_id }),
                None => None,
            },
        }
    }
}

} // verus!
