//! Building the catalog from the listing of a directory of emoji images.

use vstd::prelude::*;
use crate::emoji::catalog::{CatalogBuilder, EmojiCatalog};
use crate::emoji::error::Error;
use crate::emoji::file_name::{decode_file_name_chars, decoded_file_name};
use crate::text::{texts_of, to_chars};

verus! {

/// The emoji that a sequence of file names encodes: for each name of an
/// emoji image the scalar values that its groups name. Other names count
/// for nothing, and so does a name of which no group names a scalar value.
pub open spec fn catalog_of(names: Seq<Seq<char>>) -> Set<Seq<char>> {
    Set::new(
        |e: Seq<char>|
            exists|i: int| 0 <= i < names.len() && decoded_file_name(#[trigger] names[i]) == Some(e),
    )
}

/// The file name that one entry of a listing gave; an entry that failed
/// gave none, which is written as the empty name.
pub open spec fn name_of(entry: Result<String, Error>) -> Seq<char> {
    match entry {
        Ok(name) => name@,
        Err(_) => Seq::empty(),
    }
}

/// The file names that a listing gave, entry by entry.
pub open spec fn listed_names(listing: Seq<Result<String, Error>>) -> Seq<Seq<char>> {
    listing.map_values(|entry: Result<String, Error>| name_of(entry))
}

/// One more file name adds the emoji that it encodes, if it encodes one.
pub proof fn lemma_catalog_of_push(names: Seq<Seq<char>>, name: Seq<char>)
    ensures
        catalog_of(names.push(name)) == (match decoded_file_name(name) {
            Some(e) => catalog_of(names).insert(e),
            None => catalog_of(names),
        }),
{
    let more = names.push(name);
    let expected = match decoded_file_name(name) {
        Some(e) => catalog_of(names).insert(e),
        None => catalog_of(names),
    };
    assert forall|e: Seq<char>| catalog_of(more).contains(e) <==> expected.contains(e) by {
        if catalog_of(more).contains(e) {
            let i = choose|i: int|
                0 <= i < more.len() && decoded_file_name(#[trigger] more[i]) == Some(e);
            if i < names.len() {
                assert(decoded_file_name(names[i]) == Some(e));
            }
        }
        if catalog_of(names).contains(e) {
            let i = choose|i: int|
                0 <= i < names.len() && decoded_file_name(#[trigger] names[i]) == Some(e);
            assert(decoded_file_name(more[i]) == Some(e));
        }
        if decoded_file_name(name) == Some(e) {
            assert(decoded_file_name(more[names.len() as int]) == Some(e));
        }
    }
    assert(catalog_of(more) =~= expected);
}

/// The catalog depends on which file names a directory holds, and not on
/// the order in which they are listed, nor on how often one is listed.
pub proof fn lemma_catalog_ignores_order(a: Seq<Seq<char>>, b: Seq<Seq<char>>)
    requires
        a.to_set() == b.to_set(),
    ensures
        catalog_of(a) == catalog_of(b),
{
    assert forall|e: Seq<char>| catalog_of(a).contains(e) <==> catalog_of(b).contains(e) by {
        if catalog_of(a).contains(e) {
            let i = choose|i: int|
                0 <= i < a.len() && decoded_file_name(#[trigger] a[i]) == Some(e);
            assert(a.to_set().contains(a[i]));
            assert(b.contains(a[i]));
            let j = choose|j: int| 0 <= j < b.len() && b[j] == a[i];
            assert(decoded_file_name(b[j]) == Some(e));
        }
        if catalog_of(b).contains(e) {
            let i = choose|i: int|
                0 <= i < b.len() && decoded_file_name(#[trigger] b[i]) == Some(e);
            assert(b.to_set().contains(b[i]));
            assert(a.contains(b[i]));
            let j = choose|j: int| 0 <= j < a.len() && a[j] == b[i];
            assert(decoded_file_name(a[j]) == Some(e));
        }
    }
    assert(catalog_of(a) =~= catalog_of(b));
}

impl CatalogBuilder {
    /// Adds the emoji that the file name `name` encodes, and says whether
    /// it was new. A name that encodes none changes nothing: one that is
    /// not the name of an emoji image, or one of which no group names a
    /// scalar value.
    pub fn add_file_name(&mut self, name: &str) -> (added: bool)
        ensures
            final(self)@ == (match decoded_file_name(name@) {
                Some(e) => old(self)@.insert(e),
                None => old(self)@,
            }),
            added == (match decoded_file_name(name@) {
                Some(e) => !old(self)@.contains(e),
                None => false,
            }),
    {
        let chars = to_chars(name);
        match decode_file_name_chars(chars.as_slice()) {
            Some(emoji) => self.insert_chars(emoji),
            None => false,
        }
    }
}

impl EmojiCatalog {
    /// The catalog of the emoji whose images the file names `names` name.
    pub fn from_file_names(names: &Vec<String>) -> (catalog: EmojiCatalog)
        ensures
            catalog@ == catalog_of(texts_of(names@)),
    {
        let mut builder = CatalogBuilder::new();
        let ghost texts = texts_of(names@);
        let mut i: usize = 0;
        assert(catalog_of(texts.take(0)) =~= Set::<Seq<char>>::empty());
        while i < names.len()
            invariant
                i <= names@.len(),
                texts == texts_of(names@),
                builder@ == catalog_of(texts.take(i as int)),
            decreases names@.len() - i,
        {
            proof {
                lemma_catalog_of_push(texts.take(i as int), names@[i as int]@);
                assert(texts.take(i + 1) =~= texts.take(i as int).push(names@[i as int]@));
            }
            builder.add_file_name(names[i].as_str());
            i += 1;
        }
        proof {
            assert(texts.take(i as int) =~= texts);
        }
        builder.finish()
    }

    /// Builds the catalog from the listing of a directory: for each entry
    /// its file name, or the error that reading it gave. The first error
    /// ends the build and is returned, so that no catalog is built from a
    /// part of a directory. Without an error the catalog holds the emoji
    /// that the file names encode.
    pub fn build(listing: Vec<Result<String, Error>>) -> (r: Result<EmojiCatalog, Error>)
        ensures
            match r {
                Ok(catalog) => (forall|i: int| 0 <= i < listing@.len() ==> listing@[i] is Ok)
                    && catalog@ == catalog_of(listed_names(listing@)),
                Err(e) => exists|i: int|
                    0 <= i < listing@.len() && listing@[i] == Err::<String, Error>(e) && forall|
                        j: int,
                    |
                        0 <= j < i ==> listing@[j] is Ok,
            },
    {
        let mut builder = CatalogBuilder::new();
        let ghost entries = listing@;
        let ghost names = listed_names(entries);
        assert(catalog_of(names.take(0)) =~= Set::<Seq<char>>::empty());
        for entry in it: listing
            invariant
                it.seq() == entries,
                names == listed_names(entries),
                forall|j: int| 0 <= j < it.index() ==> entries[j] is Ok,
                builder@ == catalog_of(names.take(it.index())),
        {
            let ghost i = it.index();
            match entry {
                Ok(name) => {
                    proof {
                        lemma_catalog_of_push(names.take(i), name@);
                        assert(names.take(i + 1) =~= names.take(i).push(name@));
                    }
                    builder.add_file_name(name.as_str());
                },
                Err(e) => {
                    return Err(e);
                },
            }
        }
        proof {
            assert(names.take(entries.len() as int) =~= names);
        }
        Ok(builder.finish())
    }
}

} // verus!
