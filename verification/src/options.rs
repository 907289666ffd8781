//! The compositor's command line. Arguments are taken as the raw bytes the
//! operating system passes; the shell and child commands keep them as
//! they are.

use vstd::prelude::*;
use vstd::string::StringSliceAdditionalSpecFns;

use crate::text::{append_str, push_char};

verus! {

/// What the command line asks for.
#[derive(Debug, PartialEq, Eq)]
pub struct Options {
    /// The name of the listening socket, when one is given.
    pub socket: Option<String>,
    /// The development shell to supervise, with its arguments.
    pub shell_command: Vec<Vec<u8>>,
    /// A program to start once the compositor runs, with its arguments.
    pub command: Vec<Vec<u8>>,
    /// Usage was asked for; nothing after it was read.
    pub help: bool,
}

pub struct OptionsView {
    pub socket: Option<Seq<char>>,
    pub shell_command: Seq<Seq<u8>>,
    pub command: Seq<Seq<u8>>,
    pub help: bool,
}

pub open spec fn argument_views(arguments: Seq<Vec<u8>>) -> Seq<Seq<u8>> {
    arguments.map_values(|a: Vec<u8>| a@)
}

pub open spec fn text_view(text: Option<String>) -> Option<Seq<char>> {
    match text {
        Some(s) => Some(s@),
        None => None,
    }
}

impl View for Options {
    type V = OptionsView;

    open spec fn view(&self) -> OptionsView {
        OptionsView {
            socket: text_view(self.socket),
            shell_command: argument_views(self.shell_command@),
            command: argument_views(self.command@),
            help: self.help,
        }
    }
}

/// The text `std` makes of bytes, each invalid sequence replaced by U+FFFD.
pub uninterp spec fn lossy_text(bytes: Seq<u8>) -> Seq<char>;

/// `String::from_utf8_lossy` from std: the text of `bytes`, with U+FFFD in
/// place of each invalid sequence. Its documentation promises the text
/// itself for valid UTF-8; beyond that the contract only names the result.
#[verifier::external_body]
fn text_lossy(bytes: &Vec<u8>) -> (text: String)
    ensures
        text@ == lossy_text(bytes@),
        vstd::utf8::valid_utf8(bytes@) ==> text@ == vstd::utf8::decode_utf8(bytes@),
{
    String::from_utf8_lossy(bytes.as_slice()).into_owned()
}

/// `String::from_utf8` from std: the text of `bytes`, or `None` when they
/// are not UTF-8.
#[verifier::external_body]
fn text_of(bytes: &Vec<u8>) -> (text: Option<String>)
    ensures
        match text {
            Some(t) => vstd::utf8::valid_utf8(bytes@) && t@ == vstd::utf8::decode_utf8(bytes@),
            None => !vstd::utf8::valid_utf8(bytes@),
        },
{
    String::from_utf8(bytes.clone()).ok()
}

/// The argument is exactly `word`.
pub open spec fn is_word(argument: Seq<u8>, word: &str) -> bool {
    argument == word.spec_bytes()
}

pub open spec fn finished(
    socket: Option<Seq<char>>,
    shell_command: Seq<Seq<u8>>,
    command: Seq<Seq<u8>>,
    help: bool,
) -> Result<OptionsView, Seq<char>> {
    Ok(OptionsView { socket, shell_command, command, help })
}

/// Reads the arguments, the socket named so far being `socket`: `--`
/// hands the rest to the child command, `--shell` to the development shell
/// (which needs a program), `--socket` names the socket (non-empty UTF-8
/// without `/`), `--help` or `-h` asks for usage; anything else is refused.
pub open spec fn parse_from(arguments: Seq<Seq<u8>>, socket: Option<Seq<char>>) -> Result<
    OptionsView,
    Seq<char>,
>
    decreases arguments.len(),
{
    if arguments.len() == 0 {
        finished(socket, seq![], seq![], false)
    } else {
        let argument = arguments[0];
        let rest = arguments.drop_first();
        if is_word(argument, "--") {
            finished(socket, seq![], rest, false)
        } else if is_word(argument, "--shell") {
            if rest.len() == 0 {
                Err("--shell requires a program"@)
            } else {
                finished(socket, rest, seq![], false)
            }
        } else if is_word(argument, "--socket") {
            if rest.len() == 0 {
                Err("--socket requires a name"@)
            } else if !vstd::utf8::valid_utf8(rest[0]) {
                Err("socket name must be UTF-8"@)
            } else {
                let name = vstd::utf8::decode_utf8(rest[0]);
                if name.len() == 0 || name.contains('/') {
                    Err("socket name must be non-empty and must not contain '/'"@)
                } else {
                    parse_from(rest.drop_first(), Some(name))
                }
            }
        } else if is_word(argument, "--help") || is_word(argument, "-h") {
            finished(socket, seq![], seq![], true)
        } else {
            Err("unknown argument: "@ + lossy_text(argument))
        }
    }
}

fn same_bytes(a: &[u8], b: &[u8]) -> (same: bool)
    ensures
        same == (a@ == b@),
{
    if a.len() != b.len() {
        return false;
    }
    let mut i: usize = 0;
    while i < a.len()
        invariant
            0 <= i <= a@.len(),
            a@.len() == b@.len(),
            forall|j: int| 0 <= j < i ==> a@[j] == b@[j],
        decreases a@.len() - i,
    {
        if a[i] != b[i] {
            return false;
        }
        i += 1;
    }
    proof {
        assert(a@ =~= b@);
    }
    true
}

fn is_argument(argument: &Vec<u8>, word: &str) -> (matched: bool)
    ensures
        matched == is_word(argument@, word),
{
    same_bytes(argument.as_slice(), word.as_bytes())
}

fn copy_bytes(bytes: &Vec<u8>) -> (copy: Vec<u8>)
    ensures
        copy@ == bytes@,
{
    let mut copy: Vec<u8> = Vec::new();
    let mut i: usize = 0;
    while i < bytes.len()
        invariant
            0 <= i <= bytes@.len(),
            copy@ == bytes@.take(i as int),
        decreases bytes@.len() - i,
    {
        copy.push(bytes[i]);
        proof {
            assert(bytes@.take(i + 1) =~= bytes@.take(i as int).push(bytes@[i as int]));
        }
        i += 1;
    }
    proof {
        assert(bytes@.take(bytes@.len() as int) =~= bytes@);
    }
    copy
}

/// The arguments from position `start` on.
fn arguments_from(arguments: &[Vec<u8>], start: usize) -> (rest: Vec<Vec<u8>>)
    requires
        start <= arguments@.len(),
    ensures
        argument_views(rest@) == argument_views(arguments@).skip(start as int),
{
    let mut rest: Vec<Vec<u8>> = Vec::new();
    let mut i: usize = start;
    while i < arguments.len()
        invariant
            start <= i <= arguments@.len(),
            argument_views(rest@) == argument_views(arguments@).subrange(start as int, i as int),
        decreases arguments@.len() - i,
    {
        let copy = copy_bytes(&arguments[i]);
        let ghost before = rest@;
        rest.push(copy);
        proof {
            assert(argument_views(rest@) =~= argument_views(before).push(arguments@[i as int]@));
            assert(argument_views(arguments@).subrange(start as int, i + 1) =~= argument_views(
                arguments@,
            ).subrange(start as int, i as int).push(arguments@[i as int]@));
        }
        i += 1;
    }
    rest
}

fn contains_slash(s: &str) -> (found: bool)
    ensures
        found == s@.contains('/'),
{
    crate::text::char_count_fits(s);
    let mut found = false;
    for c in it: s.chars()
        invariant
            it.seq() == s@,
            found == s@.take(it.index() as int).contains('/'),
            s@.len() <= usize::MAX,
    {
        proof {
            let before = s@.take(it.index() as int);
            let after = s@.take(it.index() + 1);
            assert(after =~= before.push(c));
            if after.contains('/') && c != '/' {
                let k = choose|k: int| 0 <= k < after.len() && after[k] == '/';
                assert(before[k] == '/');
            }
            if before.contains('/') {
                let k = choose|k: int| 0 <= k < before.len() && before[k] == '/';
                assert(after[k] == '/');
            }
            if c == '/' {
                assert(after[it.index() as int] == '/');
            }
        }
        found = found || c == '/';
    }
    proof {
        assert(s@.take(s@.len() as int) =~= s@);
    }
    found
}

fn finish(socket: Option<String>, shell_command: Vec<Vec<u8>>, command: Vec<Vec<u8>>, help: bool) -> (options: Options)
    ensures
        options.socket == socket,
        options.shell_command == shell_command,
        options.command == command,
        options.help == help,
{
    Options { socket, shell_command, command, help }
}

/// Reads the command line (see `parse_from`); the error names what is
/// wrong.
pub fn parse_options(arguments: &[Vec<u8>]) -> (parsed: Result<Options, String>)
    ensures
        match parsed {
            Ok(options) => parse_from(argument_views(arguments@), None) == Ok::<
                OptionsView,
                Seq<char>,
            >(options@),
            Err(message) => parse_from(argument_views(arguments@), None) == Err::<
                OptionsView,
                Seq<char>,
            >(message@),
        },
{
    let ghost all = argument_views(arguments@);
    let mut socket: Option<String> = None;
    let mut i: usize = 0;
    proof {
        assert(all.skip(0) =~= all);
    }
    while i < arguments.len()
        invariant
            0 <= i <= arguments@.len(),
            all == argument_views(arguments@),
            parse_from(all, None) == parse_from(all.skip(i as int), text_view(socket)),
        decreases arguments@.len() - i,
    {
        let ghost current = all.skip(i as int);
        proof {
            assert(current[0] == arguments@[i as int]@);
            assert(current.drop_first() =~= all.skip(i + 1));
        }
        let argument = &arguments[i];
        if is_argument(argument, "--") {
            let command = arguments_from(arguments, i + 1);
            let options = finish(socket, Vec::new(), command, false);
            proof {
                assert(options@.shell_command =~= Seq::<Seq<u8>>::empty());
                assert(options@.command =~= current.drop_first());
            }
            return Ok(options);
        }
        if is_argument(argument, "--shell") {
            let shell_command = arguments_from(arguments, i + 1);
            if shell_command.len() == 0 {
                proof {
                    assert(current.drop_first().len() == 0);
                }
                return Err("--shell requires a program".to_owned());
            }
            let options = finish(socket, shell_command, Vec::new(), false);
            proof {
                assert(options@.command =~= Seq::<Seq<u8>>::empty());
                assert(options@.shell_command =~= current.drop_first());
            }
            return Ok(options);
        }
        if is_argument(argument, "--socket") {
            if i + 1 >= arguments.len() {
                return Err("--socket requires a name".to_owned());
            }
            proof {
                assert(current.drop_first()[0] == arguments@[i + 1]@);
            }
            let name = match text_of(&arguments[i + 1]) {
                Some(name) => name,
                None => {
                    return Err("socket name must be UTF-8".to_owned());
                },
            };
            if crate::text::char_count(name.as_str()) == 0 || contains_slash(name.as_str()) {
                return Err("socket name must be non-empty and must not contain '/'".to_owned());
            }
            proof {
                assert(current.drop_first().drop_first() =~= all.skip(i + 2));
            }
            socket = Some(name);
            i += 2;
            continue;
        }
        if is_argument(argument, "--help") || is_argument(argument, "-h") {
            let options = finish(socket, Vec::new(), Vec::new(), true);
            proof {
                assert(options@.command =~= Seq::<Seq<u8>>::empty());
                assert(options@.shell_command =~= Seq::<Seq<u8>>::empty());
            }
            return Ok(options);
        }
        let mut message = "unknown argument: ".to_owned();
        let shown = text_lossy(argument);
        append_str(&mut message, shown.as_str());
        return Err(message);
    }
    proof {
        assert(all.skip(i as int).len() == 0);
    }
    let options = finish(socket, Vec::new(), Vec::new(), false);
    proof {
        assert(options@.command =~= Seq::<Seq<u8>>::empty());
        assert(options@.shell_command =~= Seq::<Seq<u8>>::empty());
    }
    Ok(options)
}

} // verus!
