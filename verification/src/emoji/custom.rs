//! The textual form of a custom emoji: `<:`, a name of two or more word
//! characters, `:`, an id of one or more decimal digits, `>`.

use vstd::prelude::*;
use crate::emoji::error::Error;
use crate::emoji::token::{EmojiToken, TokenView};
use crate::text::{string_of, to_chars};

verus! {

/// A word character: an ASCII letter, an ASCII digit or the underscore.
pub open spec fn is_word_char(c: char) -> bool {
    ('0' <= c <= '9') || ('A' <= c <= 'Z') || c == '_' || ('a' <= c <= 'z')
}

/// An ASCII decimal digit.
pub open spec fn is_digit(c: char) -> bool {
    '0' <= c <= '9'
}

/// What a decimal digit counts for; anything else counts for nothing.
pub open spec fn digit_value(c: char) -> nat {
    if is_digit(c) {
        (c as nat - '0' as nat) as nat
    } else {
        0
    }
}

/// How many word characters stand in `s` from index `from` on, without a gap.
pub open spec fn word_run(s: Seq<char>, from: int) -> nat
    decreases s.len() - from,
{
    if 0 <= from < s.len() && is_word_char(s[from]) {
        1 + word_run(s, from + 1)
    } else {
        0
    }
}

/// How many decimal digits stand in `s` from index `from` on, without a gap.
pub open spec fn digit_run(s: Seq<char>, from: int) -> nat
    decreases s.len() - from,
{
    if 0 <= from < s.len() && is_digit(s[from]) {
        1 + digit_run(s, from + 1)
    } else {
        0
    }
}

/// The number that a sequence of decimal digits denotes; leading zeros count
/// for nothing and the empty sequence denotes zero.
pub open spec fn decimal_value(digits: Seq<char>) -> nat
    decreases digits.len(),
{
    if digits.len() == 0 {
        0
    } else {
        decimal_value(digits.drop_last()) * 10 + digit_value(digits.last())
    }
}

/// The number, if it fits in 64 bits.
pub open spec fn decimal_u64(digits: Seq<char>) -> Option<u64> {
    if decimal_value(digits) <= u64::MAX {
        Some(decimal_value(digits) as u64)
    } else {
        None
    }
}

/// The two variable parts of a custom emoji's text.
pub struct CustomShape {
    pub name: Seq<char>,
    pub digits: Seq<char>,
}

impl CustomShape {
    /// Name and digits are of the kinds and lengths that the form asks for.
    pub open spec fn well_formed(self) -> bool {
        &&& self.name.len() >= 2
        &&& forall|i: int| 0 <= i < self.name.len() ==> is_word_char(#[trigger] self.name[i])
        &&& self.digits.len() >= 1
        &&& forall|i: int| 0 <= i < self.digits.len() ==> is_digit(#[trigger] self.digits[i])
    }

    /// The text of the whole reference.
    pub open spec fn text(self) -> Seq<char> {
        seq!['<', ':'] + self.name + seq![':'] + self.digits + seq!['>']
    }

    /// The number of scalar values in [`Self::text`].
    pub open spec fn len(self) -> nat {
        4 + self.name.len() + self.digits.len()
    }
}

/// The custom emoji reference that starts at index `pos` of `s`, if one does.
/// Nothing is asked of what follows the closing `>`.
pub open spec fn custom_shape_at(s: Seq<char>, pos: int) -> Option<CustomShape> {
    let n = word_run(s, pos + 2);
    let d = digit_run(s, pos + 3 + n);
    if 0 <= pos && pos + 1 < s.len() && s[pos] == '<' && s[pos + 1] == ':'
        && n >= 2 && pos + 2 + n < s.len() && s[pos + 2 + n] == ':'
        && d >= 1 && pos + 3 + n + d < s.len() && s[pos + 3 + n + d] == '>' {
        Some(
            CustomShape {
                name: s.subrange(pos + 2, pos + 2 + n),
                digits: s.subrange(pos + 3 + n, pos + 3 + n + d),
            },
        )
    } else {
        None
    }
}

/// The custom emoji reference that `s` is when taken as a whole, from its
/// first to its last scalar value.
pub open spec fn custom_shape_of(s: Seq<char>) -> Option<CustomShape> {
    match custom_shape_at(s, 0) {
        Some(shape) => if shape.len() == s.len() {
            Some(shape)
        } else {
            None
        },
        None => None,
    }
}

/// The token for the custom emoji reference that starts at index `pos` of
/// `s`, with the number of scalar values it spans. There is none where no
/// reference starts there, and none where the id does not fit in 64 bits.
pub open spec fn custom_token_at(s: Seq<char>, pos: int) -> Option<(TokenView, nat)> {
    match custom_shape_at(s, pos) {
        Some(shape) => match decimal_u64(shape.digits) {
            Some(id) => Some((TokenView::Custom { id, name: shape.name }, shape.len())),
            None => None,
        },
        None => None,
    }
}

/// The token that `s` is when taken as a whole: `s` must be a custom emoji
/// reference from its first to its last scalar value.
pub open spec fn custom_token_of(s: Seq<char>) -> Option<TokenView> {
    match custom_shape_of(s) {
        Some(shape) => match decimal_u64(shape.digits) {
            Some(id) => Some(TokenView::Custom { id, name: shape.name }),
            None => None,
        },
        None => None,
    }
}

/// Word and digit runs end inside the sequence, and every element of a run
/// is of the run's kind.
pub proof fn lemma_runs(s: Seq<char>, from: int)
    requires
        0 <= from <= s.len(),
    ensures
        from + word_run(s, from) <= s.len(),
        from + digit_run(s, from) <= s.len(),
        forall|i: int| from <= i < from + word_run(s, from) ==> is_word_char(#[trigger] s[i]),
        forall|i: int| from <= i < from + digit_run(s, from) ==> is_digit(#[trigger] s[i]),
        from + word_run(s, from) < s.len() ==> !is_word_char(s[from + word_run(s, from)]),
        from + digit_run(s, from) < s.len() ==> !is_digit(s[from + digit_run(s, from)]),
    decreases s.len() - from,
{
    if from < s.len() {
        lemma_runs(s, from + 1);
    }
}

/// A stretch of word characters that ends before something else is the
/// word run from its start.
pub proof fn lemma_word_run_is(s: Seq<char>, from: int, n: nat)
    requires
        0 <= from,
        from + n <= s.len(),
        forall|i: int| from <= i < from + n ==> is_word_char(#[trigger] s[i]),
        from + n < s.len() ==> !is_word_char(s[from + n]),
    ensures
        word_run(s, from) == n,
    decreases n,
{
    if n > 0 {
        lemma_word_run_is(s, from + 1, (n - 1) as nat);
    }
}

/// A stretch of digits that ends before something else is the digit run
/// from its start.
pub proof fn lemma_digit_run_is(s: Seq<char>, from: int, n: nat)
    requires
        0 <= from,
        from + n <= s.len(),
        forall|i: int| from <= i < from + n ==> is_digit(#[trigger] s[i]),
        from + n < s.len() ==> !is_digit(s[from + n]),
    ensures
        digit_run(s, from) == n,
    decreases n,
{
    if n > 0 {
        lemma_digit_run_is(s, from + 1, (n - 1) as nat);
    }
}

/// A reference starts at `pos` exactly where the text from `pos` on begins
/// with `<:name:digits>` for a well-formed name and digits, and then the
/// shape found holds that name and those digits: the form is unambiguous.
pub proof fn lemma_custom_shape_iff(s: Seq<char>, pos: int, shape: CustomShape)
    requires
        0 <= pos <= s.len(),
    ensures
        custom_shape_at(s, pos) == Some(shape) <==> {
            &&& shape.well_formed()
            &&& pos + shape.len() <= s.len()
            &&& s.subrange(pos, pos + shape.len()) == shape.text()
        },
{
    let n = word_run(s, pos + 2);
    let d = digit_run(s, pos + 3 + n);
    if custom_shape_at(s, pos) == Some(shape) {
        lemma_runs(s, pos + 2);
        lemma_runs(s, pos + 3 + n);
        assert(s.subrange(pos, pos + shape.len()) =~= shape.text());
    }
    if shape.well_formed() && pos + shape.len() <= s.len() && s.subrange(pos, pos + shape.len())
        == shape.text() {
        let t = shape.text();
        let nl = shape.name.len() as int;
        let dl = shape.digits.len() as int;
        assert forall|i: int| 0 <= i < shape.len() implies s[pos + i] == t[i] by {
            assert(s.subrange(pos, pos + shape.len())[i] == s[pos + i]);
        }
        assert(t[0] == '<' && t[1] == ':' && t[2 + nl] == ':' && t[3 + nl + dl] == '>');
        assert forall|i: int| pos + 2 <= i < pos + 2 + nl implies is_word_char(#[trigger] s[i]) by {
            assert(s[pos + (i - pos)] == t[i - pos]);
            assert(t[i - pos] == shape.name[i - pos - 2]);
        }
        assert(s[pos + (2 + nl)] == t[2 + nl]);
        lemma_word_run_is(s, pos + 2, nl as nat);
        assert forall|i: int| pos + 3 + nl <= i < pos + 3 + nl + dl implies is_digit(
            #[trigger] s[i],
        ) by {
            assert(s[pos + (i - pos)] == t[i - pos]);
            assert(t[i - pos] == shape.digits[i - pos - 3 - nl]);
        }
        assert(s[pos + (3 + nl + dl)] == t[3 + nl + dl]);
        lemma_digit_run_is(s, pos + 3 + nl, dl as nat);
        assert(s[pos + 0] == t[0] && s[pos + 1] == t[1]);
        let found = custom_shape_at(s, pos)->0;
        assert(found.name =~= shape.name) by {
            assert forall|i: int| 0 <= i < nl implies found.name[i] == shape.name[i] by {
                assert(s[pos + (2 + i)] == t[2 + i]);
            }
        }
        assert(found.digits =~= shape.digits) by {
            assert forall|i: int| 0 <= i < dl implies found.digits[i] == shape.digits[i] by {
                assert(s[pos + (3 + nl + i)] == t[3 + nl + i]);
            }
        }
    }
}

/// A digit sequence denotes at least what any of its prefixes denotes.
pub proof fn lemma_decimal_prefix_le(digits: Seq<char>, k: int)
    requires
        0 <= k <= digits.len(),
    ensures
        decimal_value(digits.take(k)) <= decimal_value(digits),
    decreases digits.len() - k,
{
    if k == digits.len() {
        assert(digits.take(k) =~= digits);
    } else {
        lemma_decimal_prefix_le(digits.drop_last(), k);
        assert(digits.drop_last().take(k) =~= digits.take(k));
    }
}

fn word_char(c: char) -> (b: bool)
    ensures
        b == is_word_char(c),
{
    (c >= '0' && c <= '9') || (c >= 'A' && c <= 'Z') || c == '_' || (c >= 'a' && c <= 'z')
}

fn digit_char(c: char) -> (b: bool)
    ensures
        b == is_digit(c),
{
    c >= '0' && c <= '9'
}

fn count_word_chars(text: &[char], from: usize) -> (n: usize)
    requires
        from <= text@.len(),
    ensures
        n == word_run(text@, from as int),
        from + n <= text@.len(),
{
    let mut i: usize = from;
    while i < text.len() && word_char(text[i])
        invariant
            from <= i <= text@.len(),
            word_run(text@, from as int) == (i - from) + word_run(text@, i as int),
        decreases text@.len() - i,
    {
        i += 1;
    }
    i - from
}

fn count_digits(text: &[char], from: usize) -> (n: usize)
    requires
        from <= text@.len(),
    ensures
        n == digit_run(text@, from as int),
        from + n <= text@.len(),
{
    let mut i: usize = from;
    while i < text.len() && digit_char(text[i])
        invariant
            from <= i <= text@.len(),
            digit_run(text@, from as int) == (i - from) + digit_run(text@, i as int),
        decreases text@.len() - i,
    {
        i += 1;
    }
    i - from
}

/// The number that the digits `text[from..to]` denote, or `None` where it
/// does not fit in 64 bits.
fn parse_decimal(text: &[char], from: usize, to: usize) -> (r: Option<u64>)
    requires
        from <= to <= text@.len(),
        forall|i: int| from <= i < to ==> is_digit(#[trigger] text@[i]),
    ensures
        r == decimal_u64(text@.subrange(from as int, to as int)),
{
    let ghost digits = text@.subrange(from as int, to as int);
    let mut acc: u64 = 0;
    let mut i: usize = from;
    while i < to
        invariant
            from <= i <= to <= text@.len(),
            digits == text@.subrange(from as int, to as int),
            forall|j: int| from <= j < to ==> is_digit(#[trigger] text@[j]),
            acc == decimal_value(digits.take(i - from)),
        decreases to - i,
    {
        let d: u64 = (text[i] as u32 - '0' as u32) as u64;
        proof {
            assert(digits.take(i + 1 - from).drop_last() =~= digits.take(i - from));
            assert(digits.take(i + 1 - from).last() == text@[i as int]);
            assert(d == digit_value(text@[i as int]));
        }
        if acc > (u64::MAX - d) / 10 {
            proof {
                lemma_decimal_prefix_le(digits, i + 1 - from);
            }
            return None;
        }
        acc = acc * 10 + d;
        i += 1;
    }
    proof {
        assert(digits.take(to - from) =~= digits);
    }
    Some(acc)
}

/// Looks for the form of a custom emoji reference at index `pos` of `text`,
/// and gives the index at which the name ends and the index at which the
/// digits end.
fn custom_shape_in(text: &[char], pos: usize) -> (r: Option<(usize, usize)>)
    requires
        pos <= text@.len(),
    ensures
        match custom_shape_at(text@, pos as int) {
            Some(shape) => r matches Some((name_end, id_end)) && pos + 2 < name_end < id_end
                < text@.len() <= usize::MAX && shape.name == text@.subrange(
                pos + 2,
                name_end as int,
            ) && shape.digits == text@.subrange(name_end + 1, id_end as int) && shape.len()
                == id_end + 1 - pos,
            None => r is None,
        },
        r matches Some((name_end, id_end)) ==> forall|i: int|
            name_end < i < id_end ==> is_digit(#[trigger] text@[i]),
{
    let len = text.len();
    if len - pos < 2 {
        return None;
    }
    if text[pos] != '<' || text[pos + 1] != ':' {
        return None;
    }
    let n = count_word_chars(text, pos + 2);
    let name_end = pos + 2 + n;
    if n < 2 || name_end >= len || text[name_end] != ':' {
        return None;
    }
    let d = count_digits(text, name_end + 1);
    let id_end = name_end + 1 + d;
    if d < 1 || id_end >= len || text[id_end] != '>' {
        return None;
    }
    proof {
        lemma_runs(text@, pos + 2);
        lemma_runs(text@, name_end + 1);
    }
    Some((name_end, id_end))
}

/// Looks for a custom emoji reference that starts at index `pos` of `text`,
/// and gives its token with the number of scalar values that it spans.
pub fn custom_emoji_at(text: &[char], pos: usize) -> (r: Option<(EmojiToken, usize)>)
    requires
        pos <= text@.len(),
    ensures
        match custom_token_at(text@, pos as int) {
            Some((token, len)) => r matches Some((t, l)) && t@ == token && l == len,
            None => r is None,
        },
{
    match custom_shape_in(text, pos) {
        Some((name_end, id_end)) => match parse_decimal(text, name_end + 1, id_end) {
            Some(id) => {
                let name = string_of(text, pos + 2, name_end);
                Some((EmojiToken::Custom { id, name }, id_end + 1 - pos))
            },
            None => None,
        },
        None => None,
    }
}

/// Takes a custom emoji in the format of `<:lrrJUDGE:289173939802996736>`
/// and returns its token. The whole of `text` must be the reference: one
/// that stands inside a longer text is for the scanner to find, and gives
/// `Ok(None)` here, as every text of another form does. A reference whose
/// id does not fit in 64 bits is an error, which holds the digits.
pub fn try_parse_custom_emoji(text: &str) -> (r: Result<Option<EmojiToken>, Error>)
    ensures
        match custom_shape_of(text@) {
            Some(shape) => match decimal_u64(shape.digits) {
                Some(id) => r matches Ok(Some(t)) && t@ == (TokenView::Custom {
                    id,
                    name: shape.name,
                }),
                None => r matches Err(Error::CustomIdParse(digits)) && digits@ == shape.digits,
            },
            None => r matches Ok(None),
        },
{
    let chars = to_chars(text);
    match custom_shape_in(chars.as_slice(), 0) {
        Some((name_end, id_end)) => {
            if id_end + 1 != chars.len() {
                return Ok(None);
            }
            match parse_decimal(chars.as_slice(), name_end + 1, id_end) {
                Some(id) => {
                    let name = string_of(chars.as_slice(), 2, name_end);
                    Ok(Some(EmojiToken::Custom { id, name }))
                },
                None => Err(
                    Error::CustomIdParse(string_of(chars.as_slice(), name_end + 1, id_end)),
                ),
            }
        },
        None => Ok(None),
    }
}

/// Takes a custom emoji in the format of `<:lrrJUDGE:289173939802996736>`
/// and returns its token. The whole of `text` must be the reference: one
/// that stands inside a longer text is for the scanner to find. A reference
/// whose id does not fit in 64 bits gives `None` as well.
pub fn parse_custom_emoji(text: &str) -> (r: Option<EmojiToken>)
    ensures
        match custom_token_of(text@) {
            Some(token) => r matches Some(t) && t@ == token,
            None => r is None,
        },
{
    match try_parse_custom_emoji(text) {
        Ok(found) => found,
        Err(_) => None,
    }
}

} // verus!
