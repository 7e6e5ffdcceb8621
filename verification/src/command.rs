//! The commands, and what a command line asks for.

use crate::text::{
    cut_at_space, joined, lemma_first_stop, lemma_until, lemma_words_of_joined, no_white, same_text,
    split_words, texts, trim, trimmed, until, words,
};
use std::collections::VecDeque;
use vstd::prelude::*;

verus! {

/// A command that the engine knows.
#[derive(Clone, Copy, Debug, PartialEq, Eq, Structural)]
pub enum Command {
    /// Play a track, or a part of it.
    Play,
}

/// The command of a name.
pub open spec fn command_named(name: Seq<char>) -> Option<Command> {
    if name == "play"@ {
        Some(Command::Play)
    } else {
        None
    }
}

/// The name of the command on a line: all of it up to its first space.
pub open spec fn line_name(line: Seq<char>) -> Seq<char> {
    line.take(until(line, ' '))
}

/// The arguments on a line: all of it after its first space, and nothing where it has none.
pub open spec fn line_args(line: Seq<char>) -> Seq<char> {
    if until(line, ' ') < line.len() {
        line.skip(until(line, ' ') + 1)
    } else {
        Seq::empty()
    }
}

/// The command of a name, where there is one.
pub fn lookup(name: &str) -> (command: Option<Command>)
    ensures
        command == command_named(name@),
        command == Some(Command::Play) <==> name@ == "play"@,
        command is None <==> name@ != "play"@,
{
    if same_text(name, "play") {
        Some(Command::Play)
    } else {
        None
    }
}

/// The command on a line and its arguments, or nothing where the line names no command.
pub fn cmd_match(line: &str) -> (found: Option<(Command, &str)>)
    ensures
        found is Some <==> command_named(line_name(line@)) is Some,
        found matches Some((command, args)) ==> Some(command) == command_named(line_name(line@))
            && args@ == line_args(line@),
        found is Some <==> line@ == "play"@ || "play "@.is_prefix_of(line@),
        found matches Some((command, args)) ==> {
            &&& command == Command::Play
            &&& line@ == "play"@ ==> args@.len() == 0
            &&& line@ != "play"@ ==> line@ == "play "@ + args@
        },
{
    proof {
        lemma_play_lines(line@);
    }
    let (name, rest) = cut_at_space(line);
    proof {
        reveal_strlit("");
        assert(""@ =~= Seq::<char>::empty());
    }
    let args: &str = match rest {
        Some(rest) => rest,
        None => "",
    };
    match lookup(name) {
        Some(command) => Some((command, args)),
        None => None,
    }
}

/// The track that the words after a command ask for; the empty name where there are none.
pub open spec fn asked_track(words: Seq<Seq<char>>) -> Seq<char> {
    if words.len() > 0 {
        words[0]
    } else {
        Seq::empty()
    }
}

/// Whether the second word is the one that announces a name for the buffer.
pub open spec fn renames(words: Seq<Seq<char>>) -> bool {
    words.len() > 1 && words[1] == "as"@
}

/// The buffer that the words after a command ask for: the one named after `as`, else the one named
/// like the track.
pub open spec fn asked_buffer(words: Seq<Seq<char>>) -> Seq<char> {
    if renames(words) && words.len() > 2 {
        words[2]
    } else {
        asked_track(words)
    }
}

/// The words that are left for the command itself.
pub open spec fn asked_args(words: Seq<Seq<char>>) -> Seq<Seq<char>> {
    if renames(words) {
        if words.len() > 2 {
            words.skip(3)
        } else {
            Seq::empty()
        }
    } else if words.len() > 0 {
        words.skip(1)
    } else {
        Seq::empty()
    }
}

/// What a command line asks for.
pub struct Request<'a> {
    /// The command.
    pub command: Command,
    /// The name of the track.
    pub track: &'a str,
    /// The name of the buffer that plays it.
    pub buffer: &'a str,
    /// What is left for the command itself.
    pub args: VecDeque<&'a str>,
}

/// What a line asks for, or nothing where it names no command.
pub fn read_request<'a>(line: &'a str) -> (request: Option<Request<'a>>)
    ensures
        request is Some <==> command_named(line_name(line@)) is Some,
        request matches Some(r) ==> {
            let asked = words(line_args(line@));
            &&& Some(r.command) == command_named(line_name(line@))
            &&& r.track@ == asked_track(asked)
            &&& r.buffer@ == asked_buffer(asked)
            &&& texts(r.args@) == asked_args(asked)
        },
{
    match cmd_match(line) {
        Some((command, rest)) => {
            let mut args = split_words(rest);
            let ghost asked = words(line_args(line@));
            assert(texts(args@) == asked);
            proof {
                reveal_strlit("");
                assert(""@ =~= Seq::<char>::empty());
            }
            let track: &'a str = match args.pop_front() {
                Some(word) => word,
                None => "",
            };
            let ghost after_track = args@;
            assert(texts(after_track) =~= if asked.len() > 0 {
                asked.skip(1)
            } else {
                Seq::empty()
            });
            let mut buffer: &'a str = track;
            if args.len() > 0 && same_text(args[0], "as") {
                assert(texts(after_track)[0] == asked[1]);
                args.pop_front();
                if let Some(name) = args.pop_front() {
                    assert(texts(after_track)[1] == asked[2]);
                    buffer = name;
                }
                assert(renames(asked));
            } else {
                assert(!renames(asked)) by {
                    if asked.len() > 1 {
                        assert(texts(after_track)[0] == asked[1]);
                    }
                }
            }
            assert(texts(args@) =~= asked_args(asked));
            Some(Request { command, track, buffer, args })
        },
        None => None,
    }
}

/// What a line typed at the prompt asks of the program.
pub enum Input<'a> {
    /// To end.
    Quit,
    /// To carry out a command line.
    Run(&'a str),
}

/// Reads a line typed at the prompt: whitespace around it does not count, and `quit` ends the
/// program.
pub fn read_input<'a>(line: &'a str) -> (input: Input<'a>)
    ensures
        input is Quit <==> trimmed(line@) == "quit"@,
        input matches Input::Run(cmd) ==> cmd@ == trimmed(line@),
{
    let cmd = trim(line);
    if same_text(cmd, "quit") {
        Input::Quit
    } else {
        Input::Run(cmd)
    }
}

/// A line is a name without spaces, and what follows the space after it, if there is one.
pub proof fn lemma_line_parts(name: Seq<char>, rest: Seq<char>)
    requires
        !name.contains(' '),
    ensures
        line_name(name) == name,
        line_args(name) == Seq::<char>::empty(),
        line_name(name + (seq![' '] + rest)) == name,
        line_args(name + (seq![' '] + rest)) == rest,
{
    let line = name + (seq![' '] + rest);
    lemma_until(name, ' ', rest);
    assert(name.take(name.len() as int) =~= name);
    assert(line.take(name.len() as int) =~= name);
    assert(line.skip(name.len() as int + 1) =~= rest);
}

/// A name is that of a command exactly where it is `play`.
pub proof fn lemma_commands(name: Seq<char>)
    ensures
        command_named(name) == Some(Command::Play) <==> name == "play"@,
        command_named(name) is None <==> name != "play"@,
{
}

/// A line names a command exactly where it is `play`, or begins with `play` and a space; all that
/// follows the space are its arguments.
pub proof fn lemma_play_lines(line: Seq<char>)
    ensures
        command_named(line_name(line)) is Some <==> line == "play"@ || "play "@.is_prefix_of(line),
        line == "play"@ ==> line_args(line).len() == 0,
        "play "@.is_prefix_of(line) ==> line == "play "@ + line_args(line),
{
    reveal_strlit("play");
    reveal_strlit("play ");
    let n = until(line, ' ');
    lemma_first_stop(line, ' ');
    if line == "play"@ {
        assert(n == 4) by {
            if n < 4 {
                assert(line[n] == ' ');
            }
        }
        assert(line_name(line) =~= "play"@);
    }
    if "play "@.is_prefix_of(line) {
        assert forall|i: int| 0 <= i < 5 implies line[i] == "play "@[i] by {}
        assert(line[4] == ' ');
        assert(n == 4) by {
            if n < 4 {
                assert(line[n] == ' ');
            }
            if n > 4 {
                assert(line[4] != ' ');
            }
        }
        assert(line_name(line) =~= "play"@);
        assert(line =~= "play "@ + line_args(line));
    }
    if line_name(line) == "play"@ {
        assert(line_name(line).len() == n);
        assert forall|i: int| 0 <= i < 4 implies line[i] == "play"@[i] by {
            assert(line_name(line)[i] == line[i]);
        }
        if line.len() == 4 {
            assert(line =~= "play"@);
        } else {
            assert("play "@ =~= line.subrange(0, 5));
        }
    }
}

/// No words ask for nothing: the track and the buffer have the empty name, and nothing is left for
/// the command. An `as` without a name after it asks for the track's name and leaves nothing.
pub proof fn lemma_asked_without_names(track: Seq<char>)
    ensures
        asked_track(Seq::empty()).len() == 0,
        asked_buffer(Seq::empty()).len() == 0,
        asked_args(Seq::empty()).len() == 0,
        asked_track(seq![track, "as"@]) == track,
        asked_buffer(seq![track, "as"@]) == track,
        asked_args(seq![track, "as"@]).len() == 0,
{
}

/// Words that do not rename the buffer give it the track's name; the words after the track are for
/// the command.
pub proof fn lemma_unnamed_buffer(track: Seq<char>, args: Seq<Seq<char>>)
    requires
        args.len() > 0 ==> args[0] != "as"@,
    ensures
        asked_track(seq![track] + args) == track,
        asked_buffer(seq![track] + args) == track,
        asked_args(seq![track] + args) == args,
{
    let asked = seq![track] + args;
    assert(args.len() > 0 ==> asked[1] == args[0]);
    assert(asked.skip(1) =~= args);
}

/// Words that rename the buffer give it the name after `as`; the words after that are for the
/// command.
pub proof fn lemma_named_buffer(track: Seq<char>, buffer: Seq<char>, args: Seq<Seq<char>>)
    ensures
        asked_track(seq![track, "as"@, buffer] + args) == track,
        asked_buffer(seq![track, "as"@, buffer] + args) == buffer,
        asked_args(seq![track, "as"@, buffer] + args) == args,
{
    let asked = seq![track, "as"@, buffer] + args;
    assert(asked[1] == "as"@);
    assert(asked.skip(3) =~= args);
}

/// A `play` line, written from a track, a name for the buffer and arguments with a space between
/// each, asks for just these; without `as` and a name, the buffer has the track's name.
pub proof fn lemma_play_line(track: Seq<char>, buffer: Seq<char>, args: Seq<Seq<char>>)
    requires
        track.len() > 0 && no_white(track),
        buffer.len() > 0 && no_white(buffer),
        forall|i: int| 0 <= i < args.len() ==> (#[trigger] args[i]).len() > 0 && no_white(args[i]),
    ensures
        ({
            let line = "play"@ + (seq![' '] + joined(seq![track, "as"@, buffer] + args, ' '));
            let asked = words(line_args(line));
            &&& command_named(line_name(line)) == Some(Command::Play)
            &&& asked_track(asked) == track
            &&& asked_buffer(asked) == buffer
            &&& asked_args(asked) == args
        }),
        (args.len() > 0 ==> args[0] != "as"@) ==> {
            let line = "play"@ + (seq![' '] + joined(seq![track] + args, ' '));
            let asked = words(line_args(line));
            &&& command_named(line_name(line)) == Some(Command::Play)
            &&& asked_track(asked) == track
            &&& asked_buffer(asked) == track
            &&& asked_args(asked) == args
        },
{
    reveal_strlit("play");
    reveal_strlit("as");
    assert(!"play"@.contains(' '));
    assert(no_white("as"@));
    let named = seq![track, "as"@, buffer] + args;
    let plain = seq![track] + args;
    assert forall|i: int| 0 <= i < named.len() implies (#[trigger] named[i]).len() > 0 && no_white(
        named[i],
    ) by {
        if i >= 3 {
            assert(named[i] == args[i - 3]);
        }
    }
    assert forall|i: int| 0 <= i < plain.len() implies (#[trigger] plain[i]).len() > 0 && no_white(
        plain[i],
    ) by {
        if i >= 1 {
            assert(plain[i] == args[i - 1]);
        }
    }
    lemma_words_of_joined(named, ' ');
    lemma_words_of_joined(plain, ' ');
    lemma_line_parts("play"@, joined(named, ' '));
    lemma_line_parts("play"@, joined(plain, ' '));
    lemma_named_buffer(track, buffer, args);
    if args.len() > 0 ==> args[0] != "as"@ {
        lemma_unnamed_buffer(track, args);
    }
}

} // verus!
