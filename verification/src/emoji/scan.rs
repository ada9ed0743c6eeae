//! The scanner: it walks a text from left to right and yields the emoji in
//! it, custom references first and catalog entries next, longest first.

use vstd::prelude::*;
use crate::emoji::catalog::{lemma_longest_match_upto, longest_match_len, EmojiCatalog};
use crate::emoji::custom::{
    custom_emoji_at, custom_shape_at, custom_token_at, decimal_value, lemma_custom_shape_iff,
};
use crate::emoji::token::{EmojiToken, TokenView};
use crate::text::{string_of, to_chars};

verus! {

/// The token that starts at index `pos` of `text`, with the number of
/// scalar values that it spans: the custom emoji reference that starts
/// there, or else the longest entry of the catalog with which the text
/// continues there.
pub open spec fn token_at(text: Seq<char>, pos: int, catalog: Set<Seq<char>>) -> Option<
    (TokenView, nat),
> {
    match custom_token_at(text, pos) {
        Some(found) => Some(found),
        None => {
            let n = longest_match_len(catalog, text, pos);
            if n > 0 {
                Some((TokenView::Unicode(text.subrange(pos, pos + n)), n))
            } else {
                None
            }
        },
    }
}

/// What a [`Span`] stands for in contracts: a stretch of the text, from
/// index `start` up to but without index `end`, and the token that it is,
/// if it is one.
pub struct SpanView {
    pub start: int,
    pub end: int,
    pub token: Option<TokenView>,
}

/// The stretch that one step of the scanner takes from index `pos`: a
/// token, or one scalar value that belongs to none.
pub open spec fn span_at(text: Seq<char>, pos: int, catalog: Set<Seq<char>>) -> SpanView {
    match token_at(text, pos, catalog) {
        Some((token, len)) => SpanView { start: pos, end: pos + len, token: Some(token) },
        None => SpanView { start: pos, end: pos + 1, token: None },
    }
}

/// A token starts inside the text, spans at least one scalar value and ends
/// inside the text.
pub proof fn lemma_token_in_text(text: Seq<char>, pos: int, catalog: Set<Seq<char>>)
    requires
        0 <= pos <= text.len(),
    ensures
        token_at(text, pos, catalog) matches Some((_, len)) ==> (1 <= len && pos + len
            <= text.len()),
        ({
            let span = span_at(text, pos, catalog);
            pos < text.len() ==> span.start == pos && pos < span.end <= text.len()
        }),
{
    lemma_longest_match_upto(catalog, text, pos, (text.len() - pos) as nat);
}

/// A Unicode token is an entry of the catalog and the stretch of the text
/// at which it was found, and no longer stretch of the text from there is
/// an entry: the longest entry wins. Two entries of one length cannot both
/// stand at one place, so nothing is left to choose.
pub proof fn lemma_unicode_token_is_longest(text: Seq<char>, pos: int, catalog: Set<Seq<char>>)
    requires
        0 <= pos <= text.len(),
    ensures
        token_at(text, pos, catalog) matches Some((TokenView::Unicode(emoji), len)) ==> {
            &&& emoji.len() == len
            &&& emoji == text.subrange(pos, pos + len)
            &&& catalog.contains(emoji)
            &&& forall|k: int|
                len < k <= text.len() - pos ==> !catalog.contains(
                    #[trigger] text.subrange(pos, pos + k),
                )
        },
{
    lemma_longest_match_upto(catalog, text, pos, (text.len() - pos) as nat);
}

/// A custom emoji reference whose id does not fit in 64 bits is no token:
/// the place is treated as any other text, so that an entry of the catalog
/// may stand there, and otherwise one scalar value is passed over.
pub proof fn lemma_oversized_id_falls_through(text: Seq<char>, pos: int, catalog: Set<Seq<char>>)
    requires
        custom_shape_at(text, pos) matches Some(shape) && decimal_value(shape.digits) > u64::MAX,
    ensures
        custom_token_at(text, pos) is None,
        !(token_at(text, pos, catalog) matches Some((TokenView::Custom { .. }, _))),
        longest_match_len(catalog, text, pos) == 0 ==> span_at(text, pos, catalog) == (SpanView {
            start: pos,
            end: pos + 1,
            token: None,
        }),
{
}

/// The steps of a scan of `text` from index `pos` to the end, in order.
pub open spec fn spans_from(text: Seq<char>, pos: int, catalog: Set<Seq<char>>) -> Seq<SpanView>
    decreases text.len() - pos,
    via spans_from_decreases
{
    if 0 <= pos < text.len() {
        let span = span_at(text, pos, catalog);
        seq![span] + spans_from(text, span.end, catalog)
    } else {
        Seq::empty()
    }
}

#[via_fn]
proof fn spans_from_decreases(text: Seq<char>, pos: int, catalog: Set<Seq<char>>) {
    if 0 <= pos < text.len() {
        lemma_token_in_text(text, pos, catalog);
    }
}

/// The tokens among `spans`, in order.
pub open spec fn tokens_in(spans: Seq<SpanView>) -> Seq<TokenView>
    decreases spans.len(),
{
    if spans.len() == 0 {
        Seq::empty()
    } else {
        match spans[0].token {
            Some(token) => seq![token] + tokens_in(spans.drop_first()),
            None => tokens_in(spans.drop_first()),
        }
    }
}

/// The tokens that a scan of `text` from index `pos` on yields.
pub open spec fn tokens_from(text: Seq<char>, pos: int, catalog: Set<Seq<char>>) -> Seq<
    TokenView,
> {
    tokens_in(spans_from(text, pos, catalog))
}

/// The steps of a scan of the whole of `text`, in order.
pub open spec fn spans_of(text: Seq<char>, catalog: Set<Seq<char>>) -> Seq<SpanView> {
    spans_from(text, 0, catalog)
}

/// The tokens that a scan of the whole of `text` yields.
pub open spec fn tokens_of(text: Seq<char>, catalog: Set<Seq<char>>) -> Seq<TokenView> {
    tokens_from(text, 0, catalog)
}

/// The stretches of `text` that `spans` mark, laid end to end.
pub open spec fn covered(text: Seq<char>, spans: Seq<SpanView>) -> Seq<char>
    decreases spans.len(),
{
    if spans.len() == 0 {
        Seq::empty()
    } else {
        text.subrange(spans[0].start, spans[0].end) + covered(text, spans.drop_first())
    }
}

/// What the tokens from `pos` are in terms of the step taken at `pos`: the
/// token found there, if any, followed by the tokens from where the step
/// ends.
pub proof fn lemma_tokens_from_step(text: Seq<char>, pos: int, catalog: Set<Seq<char>>)
    requires
        0 <= pos < text.len(),
    ensures
        tokens_from(text, pos, catalog) == (match token_at(text, pos, catalog) {
            Some((token, len)) => seq![token] + tokens_from(text, pos + len, catalog),
            None => tokens_from(text, pos + 1, catalog),
        }),
{
    let span = span_at(text, pos, catalog);
    let rest = spans_from(text, span.end, catalog);
    let spans = spans_from(text, pos, catalog);
    assert(spans == seq![span] + rest);
    assert(spans.drop_first() =~= rest);
    assert(spans[0] == span);
}

/// The scanner takes no more steps than the text has scalar values, and
/// yields no more tokens than it takes steps.
pub proof fn lemma_scan_is_bounded(text: Seq<char>, pos: int, catalog: Set<Seq<char>>)
    requires
        0 <= pos <= text.len(),
    ensures
        spans_from(text, pos, catalog).len() <= text.len() - pos,
        tokens_from(text, pos, catalog).len() <= spans_from(text, pos, catalog).len(),
    decreases text.len() - pos,
{
    if pos < text.len() {
        let span = span_at(text, pos, catalog);
        lemma_token_in_text(text, pos, catalog);
        lemma_scan_is_bounded(text, span.end, catalog);
        lemma_tokens_from_step(text, pos, catalog);
    }
}

/// The steps of a scan follow one another without a gap from `pos` to the
/// end of the text, and the stretches they take, laid end to end, are the
/// text from `pos` on.
pub proof fn lemma_spans_cover_text(text: Seq<char>, pos: int, catalog: Set<Seq<char>>)
    requires
        0 <= pos <= text.len(),
    ensures
        covered(text, spans_from(text, pos, catalog)) == text.skip(pos),
        ({
            let spans = spans_from(text, pos, catalog);
            &&& pos < text.len() ==> spans.len() > 0 && spans[0].start == pos && spans.last().end
                == text.len()
            &&& forall|i: int|
                0 <= i < spans.len() ==> 0 <= (#[trigger] spans[i]).start < spans[i].end
                    <= text.len()
            &&& forall|i: int|
                0 <= i < spans.len() - 1 ==> (#[trigger] spans[i]).end == spans[i + 1].start
        }),
    decreases text.len() - pos,
{
    let spans = spans_from(text, pos, catalog);
    if pos < text.len() {
        let span = span_at(text, pos, catalog);
        let rest = spans_from(text, span.end, catalog);
        lemma_token_in_text(text, pos, catalog);
        lemma_spans_cover_text(text, span.end, catalog);
        assert(spans == seq![span] + rest);
        assert(spans.drop_first() =~= rest);
        assert(spans[0] == span);
        assert(text.subrange(pos, span.end) + text.skip(span.end) =~= text.skip(pos));
        assert forall|i: int| 0 <= i < spans.len() implies 0 <= (#[trigger] spans[i]).start
            < spans[i].end <= text.len() by {
            if i > 0 {
                assert(spans[i] == rest[i - 1]);
            }
        }
        assert forall|i: int| 0 <= i < spans.len() - 1 implies (#[trigger] spans[i]).end
            == spans[i + 1].start by {
            assert(spans[i + 1] == rest[i]);
            if i > 0 {
                assert(spans[i] == rest[i - 1]);
            }
        }
        if rest.len() > 0 {
            assert(spans.last() == rest.last());
        }
    } else {
        assert(text.skip(pos) =~= Seq::<char>::empty());
    }
}

/// A text in which no custom emoji reference starts anywhere, and of which
/// no stretch is an entry of the catalog, yields no token.
pub proof fn lemma_no_match_no_tokens(text: Seq<char>, pos: int, catalog: Set<Seq<char>>)
    requires
        0 <= pos <= text.len(),
        forall|p: int| 0 <= p < text.len() ==> custom_shape_at(text, p) is None,
        forall|i: int, j: int|
            0 <= i < j <= text.len() ==> !catalog.contains(#[trigger] text.subrange(i, j)),
    ensures
        tokens_from(text, pos, catalog) == Seq::<TokenView>::empty(),
    decreases text.len() - pos,
{
    if pos < text.len() {
        lemma_longest_match_upto(catalog, text, pos, (text.len() - pos) as nat);
        let n = longest_match_len(catalog, text, pos);
        if n > 0 {
            assert(catalog.contains(text.subrange(pos, pos + n)));
        }
        assert(token_at(text, pos, catalog) is None);
        lemma_tokens_from_step(text, pos, catalog);
        lemma_no_match_no_tokens(text, pos + 1, catalog);
    }
}

/// A scan of a text takes no more steps than the text has scalar values,
/// and yields no more tokens than it takes steps.
pub proof fn lemma_scan_of_text_is_bounded(text: Seq<char>, catalog: Set<Seq<char>>)
    ensures
        tokens_of(text, catalog).len() <= spans_of(text, catalog).len() <= text.len(),
{
    lemma_scan_is_bounded(text, 0, catalog);
}

/// The stretches that the steps of a scan take, laid end to end in the
/// order of the steps, are the text.
pub proof fn lemma_spans_of_text_cover_it(text: Seq<char>, catalog: Set<Seq<char>>)
    ensures
        covered(text, spans_of(text, catalog)) == text,
{
    lemma_spans_cover_text(text, 0, catalog);
    assert(text.skip(0) =~= text);
}

/// A text in which no custom emoji reference starts, and of which no
/// stretch is an entry of the catalog, yields no token.
pub proof fn lemma_text_without_match_has_no_tokens(text: Seq<char>, catalog: Set<Seq<char>>)
    requires
        forall|p: int| 0 <= p < text.len() ==> custom_shape_at(text, p) is None,
        forall|i: int, j: int|
            0 <= i < j <= text.len() ==> !catalog.contains(#[trigger] text.subrange(i, j)),
    ensures
        tokens_of(text, catalog) == Seq::<TokenView>::empty(),
{
    lemma_no_match_no_tokens(text, 0, catalog);
}

/// The empty text yields no token, whatever the catalog holds.
pub proof fn lemma_empty_text_no_tokens(catalog: Set<Seq<char>>)
    ensures
        tokens_of(Seq::<char>::empty(), catalog) == Seq::<TokenView>::empty(),
        spans_from(Seq::<char>::empty(), 0, catalog) == Seq::<SpanView>::empty(),
{
}

/// The index at which the first token at or after index `pos` starts, if
/// the text holds a token from there on.
pub open spec fn next_token_index(text: Seq<char>, pos: int, catalog: Set<Seq<char>>) -> Option<
    int,
>
    decreases text.len() - pos,
{
    if pos < 0 || pos >= text.len() {
        None
    } else if token_at(text, pos, catalog) is Some {
        Some(pos)
    } else {
        next_token_index(text, pos + 1, catalog)
    }
}

/// The first token from `pos` on starts at an index of the text at or
/// after `pos`, and no token starts between `pos` and that index. Where
/// there is no such index, no token starts from `pos` on.
pub proof fn lemma_next_token_index(text: Seq<char>, pos: int, catalog: Set<Seq<char>>)
    requires
        0 <= pos,
    ensures
        match next_token_index(text, pos, catalog) {
            Some(k) => pos <= k < text.len() && token_at(text, k, catalog) is Some && forall|
                j: int,
            |
                pos <= j < k ==> token_at(text, j, catalog) is None,
            None => forall|j: int| pos <= j < text.len() ==> token_at(text, j, catalog) is None,
        },
    decreases text.len() - pos,
{
    if pos < text.len() && token_at(text, pos, catalog) is None {
        lemma_next_token_index(text, pos + 1, catalog);
    }
}

/// A token is the stretch of the text that it spans. A Unicode token is
/// that stretch. A custom token spans `<:`, its name, `:`, digits that
/// denote its id, and `>`.
pub proof fn lemma_token_is_its_text(text: Seq<char>, pos: int, catalog: Set<Seq<char>>)
    requires
        0 <= pos <= text.len(),
    ensures
        match token_at(text, pos, catalog) {
            Some((TokenView::Unicode(emoji), len)) => pos + len <= text.len() && text.subrange(
                pos,
                pos + len,
            ) == emoji,
            Some((TokenView::Custom { id, name }, len)) => (custom_shape_at(text, pos) matches Some(
                shape,
            ) && shape.well_formed() && shape.name == name && decimal_value(shape.digits) == id
                && shape.len() == len && pos + len <= text.len() && text.subrange(pos, pos + len)
                == shape.text()),
            None => true,
        },
{
    lemma_token_in_text(text, pos, catalog);
    if custom_shape_at(text, pos) is Some {
        lemma_custom_shape_iff(text, pos, custom_shape_at(text, pos)->0);
    }
}

/// What a vector of tokens stands for in contracts.
pub open spec fn token_views(tokens: Seq<EmojiToken>) -> Seq<TokenView> {
    tokens.map_values(|t: EmojiToken| t@)
}

/// One step of the scanner: the stretch of the text that it took, as
/// indices into the scalar values of the text, and the token that the
/// stretch is. A step without a token took one scalar value.
#[derive(Debug, Clone, PartialEq, Eq)]
pub struct Span {
    pub start: usize,
    pub end: usize,
    pub token: Option<EmojiToken>,
}

impl View for Span {
    type V = SpanView;

    open spec fn view(&self) -> SpanView {
        SpanView {
            start: self.start as int,
            end: self.end as int,
            token: match self.token {
                Some(t) => Some(t@),
                None => None,
            },
        }
    }
}

/// An iterator over all the emoji in a message.
pub struct Iter<'a> {
    text: Vec<char>,
    pos: usize,
    catalog: &'a EmojiCatalog,
}

impl<'a> Iter<'a> {
    #[verifier::type_invariant]
    spec fn in_text(&self) -> bool {
        self.pos <= self.text@.len()
    }

    /// The scalar values of the text that is scanned.
    pub closed spec fn text(&self) -> Seq<char> {
        self.text@
    }

    /// The index of the scalar value at which the next step starts; at the
    /// end of the text it is the length of the text.
    pub closed spec fn position(&self) -> int {
        if self.pos <= self.text@.len() {
            self.pos as int
        } else {
            self.text@.len() as int
        }
    }

    /// The position of an iterator lies within its text or at its end.
    pub proof fn lemma_position_in_text(&self)
        ensures
            0 <= self.position() <= self.text().len(),
    {
    }

    /// The entries of the catalog that is scanned with.
    pub closed spec fn catalog(&self) -> Set<Seq<char>> {
        self.catalog@
    }

    /// The tokens that are still to come.
    pub open spec fn remaining(&self) -> Seq<TokenView> {
        tokens_from(self.text(), self.position(), self.catalog())
    }

    /// Create an iterator over all emoji in the given text.
    pub fn new(text: String, catalog: &'a EmojiCatalog) -> (iter: Iter<'a>)
        ensures
            iter.text() == text@,
            iter.position() == 0,
            iter.catalog() == catalog@,
    {
        Iter { text: to_chars(text.as_str()), pos: 0, catalog }
    }

    /// Takes one step: at the end of the text nothing, and before it the
    /// token that starts at the current position, or one scalar value where
    /// none starts there.
    pub fn step(&mut self) -> (r: Option<Span>)
        ensures
            final(self).text() == old(self).text(),
            final(self).catalog() == old(self).catalog(),
            0 <= old(self).position() <= final(self).position() <= old(self).text().len(),
            old(self).position() == old(self).text().len() ==> r is None && final(self).position()
                == old(self).position(),
            old(self).position() < old(self).text().len() ==> (r matches Some(span) && span@
                == span_at(old(self).text(), old(self).position(), old(self).catalog())
                && final(self).position() == span.end && span.start < span.end),
    {
        proof {
            use_type_invariant(&*self);
            lemma_token_in_text(self.text@, self.pos as int, self.catalog@);
        }
        let start = self.pos;
        if start >= self.text.len() {
            return None;
        }
        let found = match custom_emoji_at(self.text.as_slice(), start) {
            Some(found) => Some(found),
            None => {
                let n = self.catalog.longest_match(self.text.as_slice(), start);
                if n > 0 {
                    let s = string_of(self.text.as_slice(), start, start + n);
                    Some((EmojiToken::Unicode(s), n))
                } else {
                    None
                }
            },
        };
        match found {
            Some((token, len)) => {
                self.pos = start + len;
                Some(Span { start, end: start + len, token: Some(token) })
            },
            None => {
                self.pos = start + 1;
                Some(Span { start, end: start + 1, token: None })
            },
        }
    }

    /// Yields the next emoji of the text, or `None` when the text holds no
    /// further one. What it yields is the first of the remaining tokens,
    /// and the others remain. It passes over the scalar values before the
    /// token, at none of which a token starts, and comes to stand behind
    /// the token; without a further token it comes to stand at the end of
    /// the text.
    pub fn next(&mut self) -> (r: Option<EmojiToken>)
        ensures
            final(self).text() == old(self).text(),
            final(self).catalog() == old(self).catalog(),
            0 <= old(self).position() <= final(self).position() <= old(self).text().len(),
            match r {
                Some(token) => ({
                    let text = old(self).text();
                    let catalog = old(self).catalog();
                    let start = next_token_index(text, old(self).position(), catalog);
                    &&& old(self).remaining().len() > 0
                    &&& token@ == old(self).remaining()[0]
                    &&& final(self).remaining() == old(self).remaining().drop_first()
                    &&& start is Some
                    &&& old(self).position() <= start->0 < final(self).position()
                    &&& forall|j: int|
                        old(self).position() <= j < start->0 ==> token_at(text, j, catalog) is None
                    &&& token_at(text, start->0, catalog) == Some(
                        (token@, (final(self).position() - start->0) as nat),
                    )
                }),
                None => ({
                    let text = old(self).text();
                    let catalog = old(self).catalog();
                    &&& old(self).remaining().len() == 0
                    &&& final(self).position() == text.len()
                    &&& next_token_index(text, old(self).position(), catalog) is None
                    &&& forall|j: int|
                        old(self).position() <= j < text.len() ==> token_at(text, j, catalog) is None
                }),
            },
    {
        proof {
            use_type_invariant(&*self);
        }
        loop
            invariant
                self.text() == old(self).text(),
                self.catalog() == old(self).catalog(),
                0 <= old(self).position() <= self.position() <= self.text().len(),
                self.remaining() == old(self).remaining(),
                next_token_index(self.text(), self.position(), self.catalog()) == next_token_index(
                    self.text(),
                    old(self).position(),
                    self.catalog(),
                ),
                forall|j: int|
                    old(self).position() <= j < self.position() ==> token_at(
                        self.text(),
                        j,
                        self.catalog(),
                    ) is None,
            decreases self.text().len() - self.position(),
        {
            let ghost before = self.position();
            proof {
                if before < self.text().len() {
                    lemma_tokens_from_step(self.text(), before, self.catalog());
                }
            }
            match self.step() {
                None => {
                    return None;
                },
                Some(span) => {
                    if let Some(token) = span.token {
                        proof {
                            let rest = tokens_from(self.text(), self.position(), self.catalog());
                            assert((seq![token@] + rest).drop_first() =~= rest);
                        }
                        return Some(token);
                    }
                },
            }
        }
    }

    /// Yields all the emoji that are still to come, in the order in which
    /// they stand in the text.
    pub fn into_vec(self) -> (tokens: Vec<EmojiToken>)
        ensures
            token_views(tokens@) == self.remaining(),
    {
        let mut iter = self;
        let mut tokens: Vec<EmojiToken> = Vec::new();
        proof {
            use_type_invariant(&iter);
        }
        loop
            invariant
                iter.text() == self.text(),
                iter.catalog() == self.catalog(),
                iter.position() <= iter.text().len(),
                token_views(tokens@) + iter.remaining() == self.remaining(),
            decreases iter.remaining().len(),
        {
            let ghost before = iter.remaining();
            let ghost views = token_views(tokens@);
            match iter.next() {
                Some(token) => {
                    proof {
                        assert(token_views(tokens@.push(token)) =~= views.push(token@));
                        assert(views.push(token@) + before.drop_first() =~= views + before);
                    }
                    tokens.push(token);
                },
                None => {
                    proof {
                        assert(views + before =~= views);
                    }
                    return tokens;
                },
            }
        }
    }
}

} // verus!
