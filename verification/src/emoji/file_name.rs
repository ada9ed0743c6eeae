//! File names of emoji images: the scalar values of the emoji in lower-case
//! hexadecimal, joined by hyphens, followed by `.svg`, as in
//! `1f3f3-fe0f-200d-1f308.svg`.

use vstd::prelude::*;
use crate::text::{is_scalar_value, string_of, to_chars};

verus! {

/// A lower-case hexadecimal digit.
pub open spec fn is_hex_digit(c: char) -> bool {
    ('0' <= c <= '9') || ('a' <= c <= 'f')
}

/// What a hexadecimal digit counts for; anything else counts for nothing.
pub open spec fn hex_digit_value(c: char) -> nat {
    if '0' <= c <= '9' {
        (c as nat - '0' as nat) as nat
    } else if 'a' <= c <= 'f' {
        (c as nat - 'a' as nat + 10) as nat
    } else {
        0
    }
}

/// How many hexadecimal digits stand in `s` from index `from` on, without a
/// gap.
pub open spec fn hex_run(s: Seq<char>, from: int) -> nat
    decreases s.len() - from,
{
    if 0 <= from < s.len() && is_hex_digit(s[from]) {
        1 + hex_run(s, from + 1)
    } else {
        0
    }
}

/// The number that a sequence of hexadecimal digits denotes.
pub open spec fn hex_value(digits: Seq<char>) -> nat
    decreases digits.len(),
{
    if digits.len() == 0 {
        0
    } else {
        hex_value(digits.drop_last()) * 16 + hex_digit_value(digits.last())
    }
}

/// The scalar value that a group of one to six hexadecimal digits names, if
/// its number is one.
pub open spec fn scalar_of(group: Seq<char>) -> Option<char> {
    let v = hex_value(group);
    if v <= u32::MAX && is_scalar_value(v as u32) {
        Some(v as char)
    } else {
        None
    }
}

/// The extension that ends the name of an emoji image.
pub open spec fn svg_suffix() -> Seq<char> {
    seq!['.', 's', 'v', 'g']
}

/// The groups of the rest of a file name, from index `from` on, where the
/// rest has the form of the name of an emoji image: a group of one to six
/// hexadecimal digits, then either the extension and the end of the name,
/// or a hyphen and more groups.
pub open spec fn groups_from(s: Seq<char>, from: int) -> Option<Seq<Seq<char>>>
    decreases s.len() - from,
{
    let n = hex_run(s, from);
    let end = from + n;
    if from < 0 || n < 1 || n > 6 || end > s.len() {
        None
    } else if s.skip(end) == svg_suffix() {
        Some(seq![s.subrange(from, end)])
    } else if end < s.len() && s[end] == '-' {
        match groups_from(s, end + 1) {
            Some(rest) => Some(seq![s.subrange(from, end)] + rest),
            None => None,
        }
    } else {
        None
    }
}

/// The groups of a file name, if it has the form of the name of an emoji
/// image.
pub open spec fn file_name_groups(name: Seq<char>) -> Option<Seq<Seq<char>>> {
    groups_from(name, 0)
}

/// The scalar values that the groups name, in the order of the groups. A
/// group whose number is no scalar value is left out.
pub open spec fn scalars_of(groups: Seq<Seq<char>>) -> Seq<char>
    decreases groups.len(),
{
    if groups.len() == 0 {
        Seq::empty()
    } else {
        match scalar_of(groups.last()) {
            Some(c) => scalars_of(groups.drop_last()).push(c),
            None => scalars_of(groups.drop_last()),
        }
    }
}

/// The emoji that a file name encodes, if it is the name of an emoji image:
/// the scalar values that its groups name. A name of which no group names a
/// scalar value encodes nothing, as a name of another form does.
pub open spec fn decoded_file_name(name: Seq<char>) -> Option<Seq<char>> {
    match file_name_groups(name) {
        Some(groups) => if scalars_of(groups).len() > 0 {
            Some(scalars_of(groups))
        } else {
            None
        },
        None => None,
    }
}

/// A hexadecimal run ends inside the sequence and holds hexadecimal digits
/// only.
pub proof fn lemma_hex_run(s: Seq<char>, from: int)
    requires
        0 <= from <= s.len(),
    ensures
        from + hex_run(s, from) <= s.len(),
        forall|i: int| from <= i < from + hex_run(s, from) ==> is_hex_digit(#[trigger] s[i]),
    decreases s.len() - from,
{
    if from < s.len() {
        lemma_hex_run(s, from + 1);
    }
}

/// A stretch of hexadecimal digits that ends before something else is the
/// hexadecimal run from its start.
pub proof fn lemma_hex_run_is(s: Seq<char>, from: int, n: nat)
    requires
        0 <= from,
        from + n <= s.len(),
        forall|i: int| from <= i < from + n ==> is_hex_digit(#[trigger] s[i]),
        from + n < s.len() ==> !is_hex_digit(s[from + n]),
    ensures
        hex_run(s, from) == n,
    decreases n,
{
    if n > 0 {
        lemma_hex_run_is(s, from + 1, (n - 1) as nat);
    }
}

/// A group: one to six hexadecimal digits.
pub open spec fn is_group(group: Seq<char>) -> bool {
    &&& 1 <= group.len() <= 6
    &&& forall|i: int| 0 <= i < group.len() ==> is_hex_digit(#[trigger] group[i])
}

/// The file name made of the groups: a hyphen between each two, and the
/// extension at the end.
pub open spec fn name_of_groups(groups: Seq<Seq<char>>) -> Seq<char>
    decreases groups.len(),
{
    if groups.len() == 0 {
        Seq::empty()
    } else if groups.len() == 1 {
        groups[0] + svg_suffix()
    } else {
        groups[0] + seq!['-'] + name_of_groups(groups.drop_first())
    }
}

/// The rest of a name has the form of the name of an emoji image exactly
/// where it is made of one or more groups, joined by hyphens and followed
/// by the extension; the groups found are those groups.
pub proof fn lemma_groups_from_iff(s: Seq<char>, from: int, groups: Seq<Seq<char>>)
    requires
        0 <= from <= s.len(),
    ensures
        groups_from(s, from) == Some(groups) <==> {
            &&& groups.len() >= 1
            &&& forall|i: int| 0 <= i < groups.len() ==> is_group(#[trigger] groups[i])
            &&& s.skip(from) == name_of_groups(groups)
        },
    decreases s.len() - from,
{
    let n = hex_run(s, from);
    let end = from + n;
    lemma_hex_run(s, from);
    let group = s.subrange(from, end);
    if groups_from(s, from) == Some(groups) {
        assert(is_group(group));
        if s.skip(end) == svg_suffix() {
            assert(groups[0] == group);
            assert(s.skip(from) =~= group + s.skip(end));
        } else {
            let rest = groups_from(s, end + 1)->0;
            lemma_groups_from_iff(s, end + 1, rest);
            assert(groups == seq![group] + rest);
            assert(groups[0] == group);
            assert(groups.drop_first() =~= rest);
            assert forall|i: int| 0 <= i < groups.len() implies is_group(#[trigger] groups[i]) by {
                if i > 0 {
                    assert(groups[i] == rest[i - 1]);
                }
            }
            assert(s.skip(from) =~= group + seq!['-'] + s.skip(end + 1));
        }
    }
    if groups.len() >= 1 && (forall|i: int| 0 <= i < groups.len() ==> is_group(#[trigger] groups[i]))
        && s.skip(from) == name_of_groups(groups) {
        let first = groups[0];
        let name = name_of_groups(groups);
        let len = first.len() as int;
        assert(is_group(first));
        assert(name.len() > len);
        assert(s.skip(from).len() == s.len() - from);
        assert forall|i: int| 0 <= i < name.len() implies s[from + i] == name[i] by {
            assert(s.skip(from)[i] == s[from + i]);
        }
        assert forall|i: int| from <= i < from + len implies is_hex_digit(#[trigger] s[i]) by {
            assert(s[from + (i - from)] == name[i - from]);
            assert(name[i - from] == first[i - from]);
        }
        assert(s[from + len] == name[len]);
        assert(name[len] == '.' || name[len] == '-');
        lemma_hex_run_is(s, from, len as nat);
        assert(group =~= first) by {
            assert forall|i: int| 0 <= i < len implies group[i] == first[i] by {
                assert(s[from + i] == name[i]);
            }
        }
        if groups.len() == 1 {
            assert(s.skip(end) =~= svg_suffix()) by {
                assert forall|i: int| 0 <= i < 4 implies s.skip(end)[i] == svg_suffix()[i] by {
                    assert(s[from + (len + i)] == name[len + i]);
                }
            }
            assert(groups =~= seq![group]);
        } else {
            let tail = groups.drop_first();
            let tail_name = name_of_groups(tail);
            assert(name[len] == '-');
            assert(s.skip(end)[0] == '-');
            assert(svg_suffix()[0] == '.');
            assert(s.skip(end + 1) =~= tail_name) by {
                assert(name.len() == len + 1 + tail_name.len());
                assert forall|i: int| 0 <= i < tail_name.len() implies s.skip(end + 1)[i]
                    == tail_name[i] by {
                    assert(s[from + (len + 1 + i)] == name[len + 1 + i]);
                }
            }
            assert forall|i: int| 0 <= i < tail.len() implies is_group(#[trigger] tail[i]) by {
                assert(tail[i] == groups[i + 1]);
            }
            lemma_groups_from_iff(s, end + 1, tail);
            assert(seq![group] + tail =~= groups);
        }
    }
}

/// A file name has the form of the name of an emoji image exactly where it
/// is made of one or more groups of one to six hexadecimal digits, joined
/// by hyphens and followed by the extension.
pub proof fn lemma_file_name_groups_iff(name: Seq<char>, groups: Seq<Seq<char>>)
    ensures
        file_name_groups(name) == Some(groups) <==> {
            &&& groups.len() >= 1
            &&& forall|i: int| 0 <= i < groups.len() ==> is_group(#[trigger] groups[i])
            &&& name == name_of_groups(groups)
        },
{
    lemma_groups_from_iff(name, 0, groups);
    assert(name.skip(0) =~= name);
}

/// Sixteen to the power of `n`.
pub open spec fn pow16(n: nat) -> nat
    decreases n,
{
    if n == 0 {
        1
    } else {
        16 * pow16((n - 1) as nat)
    }
}

/// A number of `n` hexadecimal digits is below sixteen to the power of `n`.
pub proof fn lemma_hex_value_bound(digits: Seq<char>)
    ensures
        hex_value(digits) < pow16(digits.len()),
    decreases digits.len(),
{
    if digits.len() > 0 {
        lemma_hex_value_bound(digits.drop_last());
    }
}

proof fn lemma_pow16_six(n: nat)
    requires
        n <= 6,
    ensures
        pow16(n) <= 0x100_0000,
{
    reveal_with_fuel(pow16, 8);
}

fn hex_digit_char(c: char) -> (b: bool)
    ensures
        b == is_hex_digit(c),
{
    (c >= '0' && c <= '9') || (c >= 'a' && c <= 'f')
}

fn count_hex_digits(text: &[char], from: usize) -> (n: usize)
    requires
        from <= text@.len(),
    ensures
        n == hex_run(text@, from as int),
        from + n <= text@.len(),
{
    let mut i: usize = from;
    while i < text.len() && hex_digit_char(text[i])
        invariant
            from <= i <= text@.len(),
            hex_run(text@, from as int) == (i - from) + hex_run(text@, i as int),
        decreases text@.len() - i,
    {
        i += 1;
    }
    i - from
}

/// The number that the hexadecimal digits `text[from..to]` denote.
fn parse_hex(text: &[char], from: usize, to: usize) -> (v: u32)
    requires
        from <= to <= text@.len(),
        to - from <= 6,
        forall|i: int| from <= i < to ==> is_hex_digit(#[trigger] text@[i]),
    ensures
        v == hex_value(text@.subrange(from as int, to as int)),
{
    let ghost digits = text@.subrange(from as int, to as int);
    let mut acc: u32 = 0;
    let mut i: usize = from;
    while i < to
        invariant
            from <= i <= to <= text@.len(),
            to - from <= 6,
            digits == text@.subrange(from as int, to as int),
            forall|j: int| from <= j < to ==> is_hex_digit(#[trigger] text@[j]),
            acc == hex_value(digits.take(i - from)),
        decreases to - i,
    {
        let c = text[i];
        let d: u32 = if c <= '9' {
            c as u32 - '0' as u32
        } else {
            c as u32 - 'a' as u32 + 10
        };
        proof {
            assert(digits.take(i + 1 - from).drop_last() =~= digits.take(i - from));
            assert(digits.take(i + 1 - from).last() == text@[i as int]);
            assert(d == hex_digit_value(text@[i as int]));
            lemma_hex_value_bound(digits.take(i - from));
            lemma_pow16_six((i - from) as nat);
        }
        acc = acc * 16 + d;
        i += 1;
    }
    proof {
        assert(digits.take(to - from) =~= digits);
    }
    acc
}

/// Whether `text` ends at index `from` with the extension.
fn ends_with_svg(text: &[char], from: usize) -> (b: bool)
    requires
        from <= text@.len(),
    ensures
        b == (text@.skip(from as int) == svg_suffix()),
{
    assert(text@.skip(from as int).len() == text@.len() - from);
    assert(svg_suffix().len() == 4);
    if text.len() - from != 4 {
        return false;
    }
    let b = text[from] == '.' && text[from + 1] == 's' && text[from + 2] == 'v' && text[from + 3]
        == 'g';
    proof {
        let rest = text@.skip(from as int);
        assert(rest[0] == text@[from + 0] && rest[1] == text@[from + 1] && rest[2] == text@[from
            + 2] && rest[3] == text@[from + 3]);
        if b {
            assert(rest =~= svg_suffix());
        }
    }
    b
}

/// Decodes the name of an emoji image into the scalar values of the emoji.
/// A group that names no scalar value is left out; a name of which nothing
/// is left gives `None`, as a name of another form does.
pub fn decode_file_name_chars(name: &[char]) -> (r: Option<Vec<char>>)
    ensures
        match decoded_file_name(name@) {
            Some(emoji) => r matches Some(v) && v@ == emoji && emoji.len() >= 1,
            None => r is None,
        },
{
    let mut out: Vec<char> = Vec::new();
    let ghost mut done: Seq<Seq<char>> = Seq::empty();
    let mut from: usize = 0;
    assert(name@.len() <= usize::MAX) by {
        assert(name@.len() == name.len());
    }
    loop
        invariant
            from <= name@.len() <= usize::MAX,
            out@ == scalars_of(done),
            file_name_groups(name@) == (match groups_from(name@, from as int) {
                Some(rest) => Some(done + rest),
                None => None,
            }),
        decreases name@.len() - from,
    {
        let n = count_hex_digits(name, from);
        if n < 1 || n > 6 {
            return None;
        }
        let end = from + n;
        let ghost group = name@.subrange(from as int, end as int);
        proof {
            lemma_hex_run(name@, from as int);
        }
        let v = parse_hex(name, from, end);
        proof {
            lemma_hex_value_bound(group);
            lemma_pow16_six(n as nat);
            assert(done.push(group).drop_last() =~= done);
            assert(done + seq![group] =~= done.push(group));
            assert forall|rest: Seq<Seq<char>>| done + (seq![group] + rest) == done.push(group)
                + rest by {
                assert(done + (seq![group] + rest) =~= done.push(group) + rest);
            }
        }
        let last = ends_with_svg(name, end);
        if !last && (end >= name.len() || name[end] != '-') {
            return None;
        }
        match char::from_u32(v) {
            Some(c) => {
                out.push(c);
            },
            None => {},
        }
        proof {
            done = done.push(group);
        }
        if last {
            if out.len() == 0 {
                return None;
            }
            return Some(out);
        }
        from = end + 1;
    }
}

/// Converts the file name encoding an emoji (such as
/// `1f3f3-fe0f-200d-1f308.svg`) to the emoji itself. A group that names no
/// scalar value is left out. A name of which nothing is left gives `None`,
/// and so does a name of any other form.
pub fn decode_file_name(name: &str) -> (r: Option<String>)
    ensures
        match decoded_file_name(name@) {
            Some(emoji) => r matches Some(s) && s@ == emoji && emoji.len() >= 1,
            None => r is None,
        },
{
    let chars = to_chars(name);
    match decode_file_name_chars(chars.as_slice()) {
        Some(v) => {
            let s = string_of(v.as_slice(), 0, v.len());
            proof {
                assert(v@.subrange(0, v@.len() as int) =~= v@);
            }
            Some(s)
        },
        None => None,
    }
}

} // verus!
