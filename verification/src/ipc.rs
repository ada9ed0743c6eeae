//! The line-based command channel of the bot: how a command is written as
//! one line, and how the line that answers it is read.

use vstd::prelude::*;
use vstd::string::StringExecFns;
use crate::text::{string_of, texts_of, to_chars};

verus! {

/// A collection of possible errors not simply forwarded from other libraries.
#[derive(Debug, Clone, PartialEq, Eq)]
pub enum OtherError {
    /// A context of the chat client was required outside of an event
    /// handler before the client was ready.
    MissingContext,
    /// A member of the guild has no join date.
    MissingJoinDate,
    /// The reply to a command did not end in a newline.
    MissingNewline,
    /// A command line was not made of valid shell lexer tokens.
    Shlex,
    /// An unknown command was received.
    UnknownCommand(Vec<String>),
}

/// The word as `shlex::quote` writes it for a POSIX shell.
pub uninterp spec fn shell_quoted(word: Seq<char>) -> Seq<char>;

/// The list of words as the `Debug` form of a vector of strings shows it.
pub uninterp spec fn debug_text(words: Seq<Seq<char>>) -> Seq<char>;

/// Calls `shlex::quote`, which gives the word in a form that a POSIX shell
/// reads back as that one word. What the form is, is left to `shlex`: the
/// contract only names it.
#[verifier::external_body]
#[allow(deprecated)]
fn quote(word: &str) -> (quoted: String)
    ensures
        quoted@ == shell_quoted(word@),
{
    shlex::quote(word).into_owned()
}

/// Formats the words with the `Debug` implementation of `Vec<String>`. What
/// the text is, is left to the standard library: the contract only names
/// it.
#[verifier::external_body]
fn debug_list(words: &Vec<String>) -> (text: String)
    ensures
        text@ == debug_text(texts_of(words@)),
{
    format!("{:?}", words)
}

/// The words with one space between each two.
pub open spec fn joined(words: Seq<Seq<char>>) -> Seq<char>
    decreases words.len(),
{
    if words.len() == 0 {
        Seq::empty()
    } else if words.len() == 1 {
        words[0]
    } else {
        joined(words.drop_last()) + seq![' '] + words.last()
    }
}

/// The line made of the words: one space between each two, and a newline
/// at the end.
pub open spec fn line_of(words: Seq<Seq<char>>) -> Seq<char> {
    joined(words).push('\n')
}

/// Each of the words, quoted for a shell.
pub open spec fn quoted(words: Seq<Seq<char>>) -> Seq<Seq<char>> {
    words.map_values(|word: Seq<char>| shell_quoted(word))
}

/// The line that carries a command: its words, quoted for a shell and
/// joined by single spaces, and a newline at the end.
pub open spec fn request_line_of(words: Seq<Seq<char>>) -> Seq<char> {
    line_of(quoted(words))
}

/// Writes words that are quoted already as one line.
pub fn line_of_words(words: &Vec<String>) -> (line: String)
    ensures
        line@ == line_of(texts_of(words@)),
{
    let ghost texts = texts_of(words@);
    let mut line = String::new();
    let mut i: usize = 0;
    while i < words.len()
        invariant
            i <= words@.len(),
            texts == texts_of(words@),
            line@ == joined(texts.take(i as int)),
        decreases words@.len() - i,
    {
        proof {
            let upto = texts.take(i + 1);
            assert(upto.drop_last() =~= texts.take(i as int));
            assert(upto.last() == words@[i as int]@);
            assert(upto[0] == texts[0]);
        }
        if i > 0 {
            line.push(' ');
        }
        line.append(words[i].as_str());
        i += 1;
    }
    proof {
        assert(texts.take(i as int) =~= texts);
    }
    line.push('\n');
    line
}

/// Writes the command `words` as the one line that is sent to the bot.
pub fn request_line(words: &Vec<String>) -> (line: String)
    ensures
        line@ == request_line_of(texts_of(words@)),
{
    let ghost texts = texts_of(words@);
    let mut quoted_words: Vec<String> = Vec::new();
    let mut i: usize = 0;
    while i < words.len()
        invariant
            i <= words@.len(),
            texts == texts_of(words@),
            quoted_words@.len() == i,
            texts_of(quoted_words@) == quoted(texts.take(i as int)),
        decreases words@.len() - i,
    {
        let word = quote(words[i].as_str());
        proof {
            let before = texts_of(quoted_words@);
            let after = texts_of(quoted_words@.push(word));
            let expected = quoted(texts.take(i + 1));
            assert(after.len() == expected.len());
            assert forall|j: int| 0 <= j < after.len() implies after[j] == expected[j] by {
                if j < i {
                    assert(after[j] == before[j]);
                    assert(before[j] == quoted(texts.take(i as int))[j]);
                    assert(texts.take(i as int)[j] == texts.take(i + 1)[j]);
                } else {
                    assert(texts.take(i + 1)[j] == words@[i as int]@);
                }
            }
            assert(after =~= expected);
        }
        quoted_words.push(word);
        i += 1;
    }
    proof {
        assert(texts.take(i as int) =~= texts);
    }
    line_of_words(&quoted_words)
}

/// Reads the line that answers a command: the reply is the line without
/// the newline that ends it, and a line that does not end in a newline is
/// an error.
pub fn reply_of(line: String) -> (r: Result<String, OtherError>)
    ensures
        match r {
            Ok(reply) => line@.len() > 0 && line@.last() == '\n' && reply@ == line@.drop_last(),
            Err(e) => e == OtherError::MissingNewline && (line@.len() == 0 || line@.last()
                != '\n'),
        },
{
    let chars = to_chars(line.as_str());
    let n = chars.len();
    if n == 0 || chars[n - 1] != '\n' {
        return Err(OtherError::MissingNewline);
    }
    let reply = string_of(chars.as_slice(), 0, n - 1);
    proof {
        assert(chars@.subrange(0, n - 1) =~= line@.drop_last());
    }
    Ok(reply)
}

/// What [`OtherError::message`] says of an error.
pub open spec fn message_of(error: OtherError) -> Seq<char> {
    match error {
        OtherError::MissingContext => "Serenity context not available before ready event"@,
        OtherError::MissingJoinDate => "encountered user without join date"@,
        OtherError::MissingNewline => "the reply to an IPC command did not end in a newline"@,
        OtherError::Shlex => "failed to parse IPC command line"@,
        OtherError::UnknownCommand(words) => "unknown command: "@ + debug_text(texts_of(words@)),
    }
}

/// The message for a command that is not known, given the list of its
/// words as it is to be shown.
pub fn unknown_command_message(list: &str) -> (text: String)
    ensures
        text@ == "unknown command: "@ + list@,
{
    let mut text = String::from_str("unknown command: ");
    text.append(list);
    text
}

impl OtherError {
    /// The error in words.
    pub fn message(&self) -> (text: String)
        ensures
            text@ == message_of(*self),
    {
        match self {
            OtherError::MissingContext => String::from_str(
                "Serenity context not available before ready event",
            ),
            OtherError::MissingJoinDate => String::from_str("encountered user without join date"),
            OtherError::MissingNewline => String::from_str(
                "the reply to an IPC command did not end in a newline",
            ),
            OtherError::Shlex => String::from_str("failed to parse IPC command line"),
            OtherError::UnknownCommand(words) => {
                let list = debug_list(words);
                unknown_command_message(list.as_str())
            },
        }
    }
}

} // verus!
