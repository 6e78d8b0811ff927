//! The console of the client: the lines that it shows, and how a text is
//! broken into lines of a width.

use vstd::prelude::*;
use vstd::string::{StrSliceExecFns, StringExecFns};
use vstd::utf8::encode_utf8;
use crate::text::{split_words, str_eq, texts_view, words_of};

verus! {

/// The number of bytes that a text takes.
pub open spec fn byte_len(s: Seq<char>) -> nat {
    encode_utf8(s).len()
}

/// The lines into which words are put, from the word at `k` on, when
/// `current` is the line being filled: a word that would bring the line
/// with a blank above the width starts a new line, unless the line is still
/// empty; words on one line are set apart by one blank.
pub open spec fn wrap_from(words: Seq<Seq<char>>, k: int, current: Seq<char>, width: nat) -> Seq<
    Seq<char>,
>
    decreases words.len() - k,
{
    if k < 0 || k >= words.len() {
        if current.len() > 0 {
            seq![current]
        } else {
            Seq::empty()
        }
    } else if byte_len(current) + byte_len(words[k]) + 1 > width && current.len() > 0 {
        seq![current] + wrap_from(words, k + 1, words[k], width)
    } else if current.len() > 0 {
        wrap_from(words, k + 1, current + seq![' '] + words[k], width)
    } else {
        wrap_from(words, k + 1, words[k], width)
    }
}

/// The lines into which words are put; one empty line where there is no
/// word.
pub open spec fn wrapped(words: Seq<Seq<char>>, width: nat) -> Seq<Seq<char>> {
    let lines = wrap_from(words, 0, Seq::empty(), width);
    if lines.len() == 0 {
        seq![Seq::empty()]
    } else {
        lines
    }
}

/// Puts words into lines of at most `width` bytes where the words allow it.
pub fn wrap_words(words: &Vec<String>, width: usize) -> (r: Vec<String>)
    ensures
        texts_view(r@) == wrapped(texts_view(words@), width as nat),
{
    let ghost all = texts_view(words@);
    let mut lines: Vec<String> = Vec::new();
    let mut current: String = String::new();
    let mut i: usize = 0;
    assert(texts_view(lines@) =~= Seq::<Seq<char>>::empty());
    while i < words.len()
        invariant
            0 <= i <= words.len(),
            all == texts_view(words@),
            wrap_from(all, 0, Seq::empty(), width as nat) == texts_view(lines@) + wrap_from(
                all,
                i as int,
                current@,
                width as nat,
            ),
        decreases words.len() - i,
    {
        let word: &str = words[i].as_str();
        assert(word@ == all[i as int]);
        let ghost before = texts_view(lines@);
        let ghost line = current@;
        let needed: u128 = (current.as_str().as_bytes().len() as u128) + (
        word.as_bytes().len() as u128) + 1;
        assert(needed == byte_len(line) + byte_len(word@) + 1);
        let filled: bool = !current.as_str().is_empty();
        if needed > (width as u128) && filled {
            lines.push(current);
            current = String::new();
            assert(texts_view(lines@) =~= before.push(line));
            current.append(word);
            assert(current@ =~= word@);
            assert(before + (seq![line] + wrap_from(all, i + 1, word@, width as nat)) =~= before.push(
                line,
            ) + wrap_from(all, i + 1, word@, width as nat));
        } else if filled {
            current.append(" ");
            current.append(word);
            proof {
                reveal_strlit(" ");
                assert(" "@ =~= seq![' ']);
            }
            assert(current@ =~= line + seq![' '] + word@);
        } else {
            current.append(word);
            assert(current@ =~= word@);
        }
        i += 1;
    }
    let ghost before = texts_view(lines@);
    if !current.as_str().is_empty() {
        lines.push(current);
        assert(texts_view(lines@) =~= before + seq![current@]);
    } else {
        assert(before + Seq::<Seq<char>>::empty() =~= before);
    }
    if lines.len() == 0 {
        lines.push(String::new());
        assert(texts_view(lines@) =~= seq![Seq::<char>::empty()]);
    }
    lines
}

/// Breaks a text into lines of at most `width` bytes, at white space. A word
/// longer than the width stands on a line of its own.
pub fn wrap_text(text: &str, width: usize) -> (r: Vec<String>)
    ensures
        texts_view(r@) == wrapped(words_of(text@), width as nat),
{
    let words: Vec<String> = split_words(text);
    wrap_words(&words, width)
}

/// The lines that the console shows, the oldest first, and how many it
/// keeps.
pub struct ConsoleClient {
    output_buffer: Vec<String>,
    max_output_lines: usize,
}

/// The lines after one more line came: the line goes to the end, and where
/// that makes more lines than are kept, the oldest line is dropped.
pub open spec fn lines_after(lines: Seq<Seq<char>>, line: Seq<char>, max: nat) -> Seq<Seq<char>> {
    if lines.len() + 1 > max {
        lines.push(line).skip(1)
    } else {
        lines.push(line)
    }
}

impl ConsoleClient {
    /// The lines that are shown, the oldest first.
    pub closed spec fn view(&self) -> Seq<Seq<char>> {
        texts_view(self.output_buffer@)
    }

    /// The number of lines that are kept.
    pub closed spec fn capacity(&self) -> nat {
        self.max_output_lines as nat
    }

    /// A console without lines that keeps up to `max_output_lines` lines.
    pub fn new(max_output_lines: usize) -> (r: ConsoleClient)
        ensures
            r@ == Seq::<Seq<char>>::empty(),
            r.capacity() == max_output_lines,
    {
        let r = ConsoleClient { output_buffer: Vec::new(), max_output_lines };
        assert(r@ =~= Seq::<Seq<char>>::empty());
        r
    }

    /// Adds a line, and drops the oldest line where more lines than are
    /// kept would be there.
    pub fn add_output(&mut self, line: String)
        ensures
            final(self)@ == lines_after(old(self)@, line@, old(self).capacity()),
            final(self).capacity() == old(self).capacity(),
    {
        let ghost before = self@;
        self.output_buffer.push(line);
        assert(self@ =~= before.push(line@));
        if self.output_buffer.len() > self.max_output_lines {
            self.output_buffer.remove(0);
            assert(self@ =~= before.push(line@).skip(1));
        }
    }

    /// Drops all lines.
    pub fn clear_output(&mut self)
        ensures
            final(self)@ == Seq::<Seq<char>>::empty(),
            final(self).capacity() == old(self).capacity(),
    {
        self.output_buffer.clear();
        assert(self@ =~= Seq::<Seq<char>>::empty());
    }

    /// The lines, the oldest first.
    pub fn get_output(&self) -> (r: Vec<String>)
        ensures
            texts_view(r@) == self@,
    {
        let mut out: Vec<String> = Vec::new();
        let mut i: usize = 0;
        while i < self.output_buffer.len()
            invariant
                0 <= i <= self.output_buffer.len(),
                out@.len() == i,
                forall|j: int| 0 <= j < i ==> (#[trigger] out@[j])@ == self.output_buffer@[j]@,
            decreases self.output_buffer.len() - i,
        {
            out.push(self.output_buffer[i].clone());
            i += 1;
        }
        assert(texts_view(out@) =~= self@);
        out
    }
}

/// What a line of input asks the console to do.
#[derive(Debug, Clone, PartialEq, Eq)]
pub enum Command {
    /// Nothing was typed: show the lines again.
    Refresh,
    /// Leave the console.
    Quit,
    /// Show the commands.
    Help,
    /// Drop the lines that are shown.
    Clear,
    /// Download a torrent; the words behind the command are its arguments.
    Download(Vec<String>),
    /// A command that the console does not have, by its name.
    UnknownCommand(String),
    /// Input that is no command.
    UnknownInput,
}

/// A command as a mathematical value.
pub enum CommandView {
    Refresh,
    Quit,
    Help,
    Clear,
    Download(Seq<Seq<char>>),
    UnknownCommand(Seq<char>),
    UnknownInput,
}

impl View for Command {
    type V = CommandView;

    open spec fn view(&self) -> CommandView {
        match self {
            Command::Refresh => CommandView::Refresh,
            Command::Quit => CommandView::Quit,
            Command::Help => CommandView::Help,
            Command::Clear => CommandView::Clear,
            Command::Download(args) => CommandView::Download(texts_view(args@)),
            Command::UnknownCommand(name) => CommandView::UnknownCommand(name@),
            Command::UnknownInput => CommandView::UnknownInput,
        }
    }
}

/// The command that the words of a line of input make: none for no word; a
/// first word that starts with a slash names the command, and anything else
/// is no command.
pub open spec fn command_of(words: Seq<Seq<char>>) -> CommandView {
    if words.len() == 0 {
        CommandView::Refresh
    } else if words[0].len() == 0 || words[0][0] != '/' {
        CommandView::UnknownInput
    } else if words[0] == "/quit"@ || words[0] == "/exit"@ {
        CommandView::Quit
    } else if words[0] == "/help"@ || words[0] == "/?"@ {
        CommandView::Help
    } else if words[0] == "/clear"@ {
        CommandView::Clear
    } else if words[0] == "/download"@ {
        CommandView::Download(words.skip(1))
    } else {
        CommandView::UnknownCommand(words[0])
    }
}

/// Reads the command from the words of a line of input.
pub fn command_from_words(words: &Vec<String>) -> (r: Command)
    ensures
        r@ == command_of(texts_view(words@)),
{
    if words.len() == 0 {
        return Command::Refresh;
    }
    let first: &str = words[0].as_str();
    if first.is_empty() || first.get_char(0) != '/' {
        return Command::UnknownInput;
    }
    if str_eq(first, "/quit") || str_eq(first, "/exit") {
        Command::Quit
    } else if str_eq(first, "/help") || str_eq(first, "/?") {
        Command::Help
    } else if str_eq(first, "/clear") {
        Command::Clear
    } else if str_eq(first, "/download") {
        let mut args: Vec<String> = Vec::new();
        let mut i: usize = 1;
        while i < words.len()
            invariant
                1 <= i <= words.len(),
                args@.len() == i - 1,
                forall|j: int| 0 <= j < i - 1 ==> (#[trigger] args@[j])@ == words@[j + 1]@,
            decreases words.len() - i,
        {
            args.push(words[i].clone());
            i += 1;
        }
        assert(texts_view(args@) =~= texts_view(words@).skip(1));
        Command::Download(args)
    } else {
        Command::UnknownCommand(first.to_owned())
    }
}

/// Reads the command from a line of input.
pub fn parse_command(input: &str) -> (r: Command)
    ensures
        r@ == command_of(words_of(input@)),
{
    let words: Vec<String> = split_words(input);
    command_from_words(&words)
}

} // verus!
