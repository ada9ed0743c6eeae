//! The catalog of known Unicode emoji.

use vstd::prelude::*;
use crate::text::{continues_with, same_chars, starts_with_at, to_chars};

verus! {

/// The length of the longest entry of `catalog`, among those of at most `n`
/// scalar values, with which `text` continues at index `pos`; zero where
/// there is none. An entry of no scalar values never counts.
pub open spec fn longest_match_upto(
    catalog: Set<Seq<char>>,
    text: Seq<char>,
    pos: int,
    n: nat,
) -> nat
    decreases n,
{
    if n == 0 {
        0
    } else if pos + n <= text.len() && catalog.contains(text.subrange(pos, pos + n)) {
        n
    } else {
        longest_match_upto(catalog, text, pos, (n - 1) as nat)
    }
}

/// The length of the longest entry of `catalog` with which `text` continues
/// at index `pos`; zero where there is none.
pub open spec fn longest_match_len(catalog: Set<Seq<char>>, text: Seq<char>, pos: int) -> nat {
    longest_match_upto(catalog, text, pos, (text.len() - pos) as nat)
}

/// What the longest match is: an entry with which the text continues, and
/// no longer stretch of the text from there is an entry.
pub proof fn lemma_longest_match_upto(catalog: Set<Seq<char>>, text: Seq<char>, pos: int, n: nat)
    requires
        0 <= pos,
        pos + n <= text.len(),
    ensures
        ({
            let r = longest_match_upto(catalog, text, pos, n);
            &&& r <= n
            &&& r > 0 ==> catalog.contains(text.subrange(pos, pos + r))
            &&& forall|k: int| r < k <= n ==> !catalog.contains(#[trigger] text.subrange(pos, pos + k))
        }),
    decreases n,
{
    if n > 0 && !catalog.contains(text.subrange(pos, pos + n)) {
        lemma_longest_match_upto(catalog, text, pos, (n - 1) as nat);
    }
}

/// The longest match is the one length with these two properties.
pub proof fn lemma_longest_match_is(
    catalog: Set<Seq<char>>,
    text: Seq<char>,
    pos: int,
    n: nat,
    r: nat,
)
    requires
        0 <= pos,
        r <= n,
        pos + n <= text.len(),
        r > 0 ==> catalog.contains(text.subrange(pos, pos + r)),
        forall|k: int| r < k <= n ==> !catalog.contains(#[trigger] text.subrange(pos, pos + k)),
    ensures
        longest_match_upto(catalog, text, pos, n) == r,
    decreases n,
{
    if n > r {
        assert(!catalog.contains(text.subrange(pos, pos + n)));
        lemma_longest_match_is(catalog, text, pos, (n - 1) as nat, r);
    }
}

/// The sequences that a vector of entries holds.
pub open spec fn entry_views(entries: Seq<Vec<char>>) -> Seq<Seq<char>> {
    Seq::new(entries.len(), |i: int| entries[i]@)
}

/// No entry is empty, no entry stands twice, and a longer entry stands
/// before a shorter one.
pub open spec fn longest_first(entries: Seq<Seq<char>>) -> bool {
    &&& forall|i: int| 0 <= i < entries.len() ==> (#[trigger] entries[i]).len() >= 1
    &&& forall|i: int, j: int|
        0 <= i < j < entries.len() ==> (#[trigger] entries[i]).len() >= (#[trigger] entries[j]).len()
    &&& entries.no_duplicates()
}

proof fn lemma_insert_entry(entries: Seq<Seq<char>>, at: int, e: Seq<char>)
    requires
        longest_first(entries),
        0 <= at <= entries.len(),
        e.len() >= 1,
        forall|j: int| 0 <= j < at ==> (#[trigger] entries[j]).len() >= e.len(),
        at < entries.len() ==> entries[at].len() < e.len(),
        !entries.contains(e),
    ensures
        longest_first(entries.insert(at, e)),
        entries.insert(at, e).to_set() == entries.to_set().insert(e),
{
    let after = entries.insert(at, e);
    assert forall|i: int| 0 <= i < after.len() implies (#[trigger] after[i]).len() >= 1 by {
        if i < at {
            assert(after[i] == entries[i]);
        } else if i > at {
            assert(after[i] == entries[i - 1]);
        }
    }
    assert forall|i: int, j: int| 0 <= i < j < after.len() implies (#[trigger] after[i]).len() >= (
    #[trigger] after[j]).len() && after[i] != after[j] by {
        let a = if i < at { entries[i] } else if i == at { e } else { entries[i - 1] };
        let b = if j < at { entries[j] } else if j == at { e } else { entries[j - 1] };
        assert(after[i] == a && after[j] == b);
        if i != at && j != at {
            let i0 = if i < at { i } else { i - 1 };
            let j0 = if j < at { j } else { j - 1 };
            assert(entries[i0].len() >= entries[j0].len());
            assert(entries[i0] != entries[j0]);
        } else if i == at {
            assert(entries[at].len() >= entries[j - 1].len());
            assert(entries.contains(entries[j - 1]));
        } else {
            assert(entries.contains(entries[i]));
        }
    }
    assert forall|x: Seq<char>| after.to_set().contains(x) <==> entries.to_set().insert(
        e,
    ).contains(x) by {
        if after.contains(x) {
            let i = choose|i: int| 0 <= i < after.len() && after[i] == x;
            if i < at {
                assert(entries[i] == x);
            } else if i > at {
                assert(entries[i - 1] == x);
            }
        }
        if entries.contains(x) {
            let i = choose|i: int| 0 <= i < entries.len() && entries[i] == x;
            if i < at {
                assert(after[i] == x);
            } else {
                assert(after[i + 1] == x);
            }
        }
        if x == e {
            assert(after[at] == x);
        }
    }
    assert(after.to_set() =~= entries.to_set().insert(e));
}

/// Looks for `emoji` among `entries`.
fn position_of(entries: &Vec<Vec<char>>, emoji: &[char]) -> (r: Option<usize>)
    ensures
        r is Some <==> entry_views(entries@).contains(emoji@),
        r matches Some(i) ==> i < entries@.len() && entries@[i as int]@ == emoji@,
{
    let ghost views = entry_views(entries@);
    let mut i: usize = 0;
    while i < entries.len()
        invariant
            i <= entries@.len(),
            views == entry_views(entries@),
            forall|j: int| 0 <= j < i ==> #[trigger] views[j] != emoji@,
        decreases entries@.len() - i,
    {
        if same_chars(entries[i].as_slice(), emoji) {
            assert(views[i as int] == emoji@);
            return Some(i);
        }
        i += 1;
    }
    None
}

/// A catalog in the making: the emoji gathered so far. Only here are
/// entries added; [`CatalogBuilder::finish`] turns it into a catalog that
/// no longer changes.
pub struct CatalogBuilder {
    entries: Vec<Vec<char>>,
}

impl View for CatalogBuilder {
    type V = Set<Seq<char>>;

    closed spec fn view(&self) -> Set<Seq<char>> {
        entry_views(self.entries@).to_set()
    }
}

impl CatalogBuilder {
    #[verifier::type_invariant]
    spec fn ordered(&self) -> bool {
        longest_first(entry_views(self.entries@))
    }

    /// A builder that has gathered nothing yet.
    pub fn new() -> (builder: CatalogBuilder)
        ensures
            builder@ == Set::<Seq<char>>::empty(),
    {
        let builder = CatalogBuilder { entries: Vec::new() };
        assert(entry_views(builder.entries@).to_set() =~= Set::<Seq<char>>::empty());
        builder
    }

    /// Adds `emoji` and says whether it was new. The empty string is no
    /// emoji and is never added.
    pub fn insert(&mut self, emoji: &str) -> (added: bool)
        ensures
            final(self)@ == (if emoji@.len() > 0 {
                old(self)@.insert(emoji@)
            } else {
                old(self)@
            }),
            added == (emoji@.len() > 0 && !old(self)@.contains(emoji@)),
    {
        self.insert_chars(to_chars(emoji))
    }

    /// Adds the emoji made of the scalar values `emoji`, as
    /// [`CatalogBuilder::insert`] does.
    pub fn insert_chars(&mut self, emoji: Vec<char>) -> (added: bool)
        ensures
            final(self)@ == (if emoji@.len() > 0 {
                old(self)@.insert(emoji@)
            } else {
                old(self)@
            }),
            added == (emoji@.len() > 0 && !old(self)@.contains(emoji@)),
    {
        proof {
            use_type_invariant(&*self);
        }
        if emoji.len() == 0 {
            return false;
        }
        if position_of(&self.entries, emoji.as_slice()).is_some() {
            assert(self@.insert(emoji@) =~= self@);
            return false;
        }
        let ghost views = entry_views(self.entries@);
        let n = self.entries.len();
        let mut at: usize = 0;
        while at < n && self.entries[at].len() >= emoji.len()
            invariant
                at <= n == self.entries@.len(),
                views == entry_views(self.entries@),
                forall|j: int| 0 <= j < at ==> (#[trigger] views[j]).len() >= emoji@.len(),
            decreases n - at,
        {
            assert(views[at as int].len() >= emoji@.len());
            at += 1;
        }
        proof {
            if at < n {
                assert(views[at as int].len() < emoji@.len());
            }
            lemma_insert_entry(views, at as int, emoji@);
            assert(entry_views(self.entries@.insert(at as int, emoji)) =~= views.insert(
                at as int,
                emoji@,
            ));
        }
        let mut entries: Vec<Vec<char>> = Vec::new();
        std::mem::swap(&mut self.entries, &mut entries);
        entries.insert(at, emoji);
        std::mem::swap(&mut self.entries, &mut entries);
        true
    }

    /// The catalog of what was gathered.
    pub fn finish(self) -> (catalog: EmojiCatalog)
        ensures
            catalog@ == self@,
    {
        proof {
            use_type_invariant(&self);
        }
        EmojiCatalog { entries: self.entries }
    }
}

/// The known Unicode emoji: a set of sequences of scalar values, none of
/// them empty. Once built it does not change.
pub struct EmojiCatalog {
    entries: Vec<Vec<char>>,
}

impl View for EmojiCatalog {
    type V = Set<Seq<char>>;

    closed spec fn view(&self) -> Set<Seq<char>> {
        entry_views(self.entries@).to_set()
    }
}

impl EmojiCatalog {
    #[verifier::type_invariant]
    spec fn ordered(&self) -> bool {
        longest_first(entry_views(self.entries@))
    }

    /// A catalog without entries.
    pub fn new() -> (catalog: EmojiCatalog)
        ensures
            catalog@ == Set::<Seq<char>>::empty(),
    {
        CatalogBuilder::new().finish()
    }

    /// The number of entries. There are finitely many, and none is empty.
    pub fn len(&self) -> (n: usize)
        ensures
            self@.finite(),
            n == self@.len(),
            !self@.contains(Seq::<char>::empty()),
    {
        proof {
            use_type_invariant(&*self);
            let views = entry_views(self.entries@);
            views.unique_seq_to_set();
            vstd::seq_lib::seq_to_set_is_finite(views);
            if views.contains(Seq::<char>::empty()) {
                let i = choose|i: int| 0 <= i < views.len() && views[i] == Seq::<char>::empty();
                assert(views[i].len() >= 1);
            }
        }
        self.entries.len()
    }

    /// Whether `emoji` is an entry.
    pub fn contains(&self, emoji: &str) -> (r: bool)
        ensures
            r == self@.contains(emoji@),
    {
        let chars = to_chars(emoji);
        position_of(&self.entries, chars.as_slice()).is_some()
    }

    /// The length of the longest entry with which `text` continues at index
    /// `pos`, or zero where it continues with none. The entries are kept
    /// longest first, so the first one that fits is the answer.
    pub fn longest_match(&self, text: &[char], pos: usize) -> (n: usize)
        requires
            pos <= text@.len(),
        ensures
            n == longest_match_len(self@, text@, pos as int),
            pos + n <= text@.len(),
    {
        proof {
            use_type_invariant(&*self);
        }
        let ghost views = entry_views(self.entries@);
        let mut i: usize = 0;
        let mut found: usize = 0;
        while i < self.entries.len() && found == 0
            invariant
                i <= self.entries@.len(),
                views == entry_views(self.entries@),
                longest_first(views),
                pos <= text@.len(),
                forall|j: int|
                    0 <= j < i - (if found > 0 { 1int } else { 0 }) ==> !continues_with(
                        text@,
                        pos as int,
                        #[trigger] views[j],
                    ),
                found > 0 ==> i > 0 && found == views[i - 1].len() && continues_with(
                    text@,
                    pos as int,
                    views[i - 1],
                ),
            decreases self.entries@.len() - i,
        {
            if starts_with_at(text, pos, self.entries[i].as_slice()) {
                assert(views[i as int] == self.entries@[i as int]@);
                found = self.entries[i].len();
            }
            i += 1;
        }
        proof {
            let rest = (text@.len() - pos) as nat;
            assert forall|k: int| found < k <= rest implies !self@.contains(
                #[trigger] text@.subrange(pos as int, pos + k),
            ) by {
                let piece = text@.subrange(pos as int, pos + k);
                if views.contains(piece) {
                    let j = choose|j: int| 0 <= j < views.len() && views[j] == piece;
                    assert(continues_with(text@, pos as int, views[j]));
                    if found > 0 {
                        assert(views[j].len() > views[i - 1].len());
                    }
                }
            }
            if found > 0 {
                assert(views.contains(views[i - 1]));
            }
            lemma_longest_match_is(self@, text@, pos as int, rest, found as nat);
        }
        found
    }
}

} // verus!
