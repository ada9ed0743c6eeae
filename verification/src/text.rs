//! Strings as sequences of Unicode scalar values.

use vstd::prelude::*;

verus! {

/// `String::push` appends one scalar value to the end of the string and
/// leaves the rest as it was.
pub assume_specification[ String::push ](s: &mut String, c: char)
    ensures
        final(s)@ == old(s)@.push(c),
;

/// A number that is a Unicode scalar value: a code point that is no
/// surrogate.
pub open spec fn is_scalar_value(v: u32) -> bool {
    v <= 0xD7FF || (0xE000 <= v <= 0x10FFFF)
}

/// `char::from_u32` gives the `char` with the given number where the number
/// is a Unicode scalar value, and `None` for every other number.
pub assume_specification[ char::from_u32 ](i: u32) -> (r: Option<char>)
    ensures
        r == (if is_scalar_value(i) {
            Some(i as char)
        } else {
            None
        }),
;

/// The scalar values of `s`, in order.
pub fn to_chars(s: &str) -> (v: Vec<char>)
    ensures
        v@ == s@,
{
    broadcast use vstd::string::group_string_axioms;

    let mut v: Vec<char> = Vec::new();
    for c in it: s.chars()
        invariant
            it.seq() == s@,
            v@ == s@.take(it.index()),
    {
        v.push(c);
    }
    v
}

/// The string made of `chars[from..to]`.
pub fn string_of(chars: &[char], from: usize, to: usize) -> (s: String)
    requires
        from <= to <= chars@.len(),
    ensures
        s@ == chars@.subrange(from as int, to as int),
{
    let mut s = String::new();
    let mut i: usize = from;
    while i < to
        invariant
            from <= i <= to <= chars@.len(),
            s@ == chars@.subrange(from as int, i as int),
        decreases to - i,
    {
        s.push(chars[i]);
        i += 1;
    }
    s
}

/// The texts of a sequence of strings.
pub open spec fn texts_of(strings: Seq<String>) -> Seq<Seq<char>> {
    strings.map_values(|s: String| s@)
}

/// `text` continues at index `pos` with the whole of `piece`.
pub open spec fn continues_with(text: Seq<char>, pos: int, piece: Seq<char>) -> bool {
    0 <= pos && pos + piece.len() <= text.len() && text.subrange(pos, pos + piece.len()) == piece
}

/// Whether two slices hold the same scalar values.
pub fn same_chars(a: &[char], b: &[char]) -> (r: bool)
    ensures
        r == (a@ == b@),
{
    if a.len() != b.len() {
        return false;
    }
    let mut i: usize = 0;
    while i < a.len()
        invariant
            i <= a@.len() == b@.len(),
            a@.take(i as int) == b@.take(i as int),
        decreases a@.len() - i,
    {
        if a[i] != b[i] {
            return false;
        }
        proof {
            assert(a@.take(i + 1) =~= a@.take(i as int).push(a@[i as int]));
            assert(b@.take(i + 1) =~= b@.take(i as int).push(b@[i as int]));
        }
        i += 1;
    }
    proof {
        assert(a@.take(i as int) =~= a@ && b@.take(i as int) =~= b@);
    }
    true
}

/// Whether `text` continues at index `pos` with the whole of `piece`.
pub fn starts_with_at(text: &[char], pos: usize, piece: &[char]) -> (r: bool)
    requires
        pos <= text@.len(),
    ensures
        r == continues_with(text@, pos as int, piece@),
{
    if piece.len() > text.len() - pos {
        return false;
    }
    assert(text@.len() <= usize::MAX);
    let mut i: usize = 0;
    while i < piece.len()
        invariant
            pos + piece@.len() <= text@.len() <= usize::MAX,
            i <= piece@.len(),
            text@.subrange(pos as int, pos + i) == piece@.take(i as int),
        decreases piece@.len() - i,
    {
        if text[pos + i] != piece[i] {
            proof {
                assert(text@.subrange(pos as int, pos + piece@.len())[i as int] == text@[pos + i]);
            }
            return false;
        }
        proof {
            assert(text@.subrange(pos as int, pos + i + 1) =~= text@.subrange(
                pos as int,
                pos + i,
            ).push(text@[pos + i]));
            assert(piece@.take(i + 1) =~= piece@.take(i as int).push(piece@[i as int]));
        }
        i += 1;
    }
    proof {
        assert(piece@.take(i as int) =~= piece@);
    }
    true
}

} // verus!
