//! The shell: its arguments, its commands, and how lines become statements.

use vstd::prelude::*;
use vstd::string::*;

use crate::text;
use crate::text::{cat3, chars_of, own, starts_with, text_equal};

verus! {

/// The place of the first of some texts.
pub open spec fn first_place(args: Seq<Seq<char>>, x: Seq<char>) -> Option<int>
    decreases args.len(),
{
    if args.len() == 0 {
        None
    } else {
        match first_place(args.drop_last(), x) {
            Some(i) => Some(i),
            None => if args.last() == x {
                Some(args.len() - 1)
            } else {
                None
            },
        }
    }
}

proof fn lemma_place_stays(args: Seq<Seq<char>>, x: Seq<char>, i: int)
    requires
        0 <= i <= args.len(),
        first_place(args.subrange(0, i), x) is Some,
    ensures
        first_place(args, x) == first_place(args.subrange(0, i), x),
    decreases args.len() - i,
{
    if i < args.len() {
        assert(args.subrange(0, i + 1).drop_last() =~= args.subrange(0, i));
        lemma_place_stays(args, x, i + 1);
    } else {
        assert(args.subrange(0, i) =~= args);
    }
}

/// The data directory that arguments name: what follows the first `--data-dir`.
pub fn data_dir_argument(args: &Vec<String>) -> (r: Option<String>)
    ensures
        match r {
            Some(d) => first_place(text::views(args@), "--data-dir"@) matches Some(i) && i + 1 < args@.len() && d@
                == args@[i + 1]@,
            None => match first_place(text::views(args@), "--data-dir"@) {
                Some(i) => i + 1 >= args@.len(),
                None => true,
            },
        },
{
    let ghost all = text::views(args@);
    let mut i: usize = 0;
    while i < args.len()
        invariant
            i <= args.len(),
            all == text::views(args@),
            first_place(all.subrange(0, i as int), "--data-dir"@) is None,
        decreases args.len() - i,
    {
        proof {
            let next = all.subrange(0, i as int + 1);
            assert(next.drop_last() =~= all.subrange(0, i as int));
            assert(next.last() == args@[i as int]@);
        }
        if text_equal(args[i].as_str(), "--data-dir") {
            proof {
                lemma_place_stays(all, "--data-dir"@, i as int + 1);
            }
            if i + 1 < args.len() {
                return Some(args[i + 1].clone());
            }
            return None;
        }
        i += 1;
    }
    assert(all.subrange(0, all.len() as int) =~= all);
    None
}

/// A command of the shell.
#[derive(Clone, Copy, PartialEq, Eq, Structural, Debug)]
pub enum DotCommand {
    Help,
    Collections,
    Data,
    Quit,
    Unknown,
}

/// The command that a line is.
pub open spec fn command_of(line: Seq<char>) -> DotCommand {
    if line == ".help"@ {
        DotCommand::Help
    } else if line == ".collections"@ {
        DotCommand::Collections
    } else if line == ".data"@ {
        DotCommand::Data
    } else if line == ".quit"@ || line == ".exit"@ {
        DotCommand::Quit
    } else {
        DotCommand::Unknown
    }
}

/// The command that a line is.
pub fn dot_command(line: &str) -> (r: DotCommand)
    ensures
        r == command_of(line@),
{
    if text_equal(line, ".help") {
        DotCommand::Help
    } else if text_equal(line, ".collections") {
        DotCommand::Collections
    } else if text_equal(line, ".data") {
        DotCommand::Data
    } else if text_equal(line, ".quit") || text_equal(line, ".exit") {
        DotCommand::Quit
    } else {
        DotCommand::Unknown
    }
}

/// What the shell does with a line.
#[derive(Debug)]
pub enum ShellAction {
    /// Runs a command.
    Command(DotCommand),
    /// Reads on: the statement is not finished.
    ReadOn,
    /// Runs a statement.
    Run(String),
}

/// Whether a character is white space: those that Unicode gives the property White_Space.
pub open spec fn is_white(c: char) -> bool {
    ||| '\u{9}' <= c <= '\u{D}'
    ||| c == ' '
    ||| c == '\u{85}'
    ||| c == '\u{A0}'
    ||| c == '\u{1680}'
    ||| '\u{2000}' <= c <= '\u{200A}'
    ||| c == '\u{2028}'
    ||| c == '\u{2029}'
    ||| c == '\u{202F}'
    ||| c == '\u{205F}'
    ||| c == '\u{3000}'
}

fn white(c: char) -> (b: bool)
    ensures
        b == is_white(c),
{
    ('\u{9}' <= c && c <= '\u{D}') || c == ' ' || c == '\u{85}' || c == '\u{A0}' || c == '\u{1680}' || (
    '\u{2000}' <= c && c <= '\u{200A}') || c == '\u{2028}' || c == '\u{2029}' || c == '\u{202F}' || c
        == '\u{205F}' || c == '\u{3000}'
}

/// A text without the white space at its end.
pub open spec fn strip_end(s: Seq<char>) -> Seq<char>
    decreases s.len(),
{
    if s.len() > 0 && is_white(s.last()) {
        strip_end(s.drop_last())
    } else {
        s
    }
}

/// A text without the white space at its beginning.
pub open spec fn strip_start(s: Seq<char>) -> Seq<char>
    decreases s.len(),
{
    if s.len() > 0 && is_white(s[0]) {
        strip_start(s.drop_first())
    } else {
        s
    }
}

/// A text without the white space at its ends.
pub open spec fn trimmed(s: Seq<char>) -> Seq<char> {
    strip_start(strip_end(s))
}

/// Whether a statement is finished: it ends in a semicolon.
pub open spec fn finished(s: Seq<char>) -> bool {
    strip_end(s).len() > 0 && strip_end(s).last() == ';'
}

proof fn lemma_strip_end(s: Seq<char>, n: int)
    requires
        0 <= n <= s.len(),
        forall|j: int| n <= j < s.len() ==> is_white(#[trigger] s[j]),
        n > 0 ==> !is_white(s[n - 1]),
    ensures
        strip_end(s) == s.subrange(0, n),
    decreases s.len(),
{
    if n < s.len() {
        assert(s.drop_last().subrange(0, n) =~= s.subrange(0, n));
        assert forall|j: int| n <= j < s.drop_last().len() implies is_white(#[trigger] s.drop_last()[j]) by {
            assert(is_white(s[j]));
        }
        assert(is_white(s[s.len() - 1]));
        lemma_strip_end(s.drop_last(), n);
    } else {
        assert(s.subrange(0, n) =~= s);
    }
}

proof fn lemma_strip_start(s: Seq<char>, n: int)
    requires
        0 <= n <= s.len(),
        forall|j: int| 0 <= j < n ==> is_white(#[trigger] s[j]),
        n < s.len() ==> !is_white(s[n]),
    ensures
        strip_start(s) == s.subrange(n, s.len() as int),
    decreases s.len(),
{
    if n > 0 {
        let t = s.drop_first();
        assert(t.subrange(n - 1, t.len() as int) =~= s.subrange(n, s.len() as int));
        assert forall|j: int| 0 <= j < n - 1 implies is_white(#[trigger] t[j]) by {
            assert(is_white(s[j + 1]));
        }
        assert(is_white(s[0]));
        lemma_strip_start(t, n - 1);
    } else {
        assert(s.subrange(0, s.len() as int) =~= s);
    }
}

/// Where the white space at the end of a text begins.
fn end_of(cs: &Vec<char>) -> (n: usize)
    ensures
        n <= cs@.len(),
        strip_end(cs@) == cs@.subrange(0, n as int),
{
    let mut n: usize = cs.len();
    while n > 0 && white(cs[n - 1])
        invariant
            n <= cs.len(),
            forall|j: int| n <= j < cs.len() ==> is_white(#[trigger] cs@[j]),
        decreases n,
    {
        n -= 1;
    }
    proof {
        lemma_strip_end(cs@, n as int);
    }
    n
}

/// A text without the white space at its ends.
pub fn trim(s: &str) -> (r: String)
    ensures
        r@ == trimmed(s@),
{
    let cs = chars_of(s);
    let n = end_of(&cs);
    let mut m: usize = 0;
    while m < n && white(cs[m])
        invariant
            m <= n,
            n <= cs.len(),
            forall|j: int| 0 <= j < m ==> is_white(#[trigger] cs@[j]),
        decreases n - m,
    {
        m += 1;
    }
    proof {
        let rest = s@.subrange(0, n as int);
        assert forall|j: int| 0 <= j < m implies is_white(#[trigger] rest[j]) by {
            assert(rest[j] == cs@[j]);
        }
        lemma_strip_start(rest, m as int);
        assert(rest.subrange(m as int, n as int) =~= s@.subrange(m as int, n as int));
    }
    own(s.substring_char(m, n))
}

/// The shell between two lines: what was entered of a statement.
pub struct Shell {
    buffer: String,
}

impl View for Shell {
    type V = Seq<char>;

    closed spec fn view(&self) -> Seq<char> {
        self.buffer@
    }
}

impl Shell {
    /// A shell that nothing was entered in.
    pub fn new() -> (s: Self)
        ensures
            s@ == Seq::<char>::empty(),
    {
        let s = Shell { buffer: String::new() };
        assert(s@ =~= Seq::<char>::empty());
        s
    }

    /// The prompt: another one while a statement is not finished.
    pub fn prompt(&self) -> (p: &'static str)
        ensures
            p@ == (if self@.len() == 0 {
                "trondb> "@
            } else {
                "   ...> "@
            }),
    {
        if self.buffer.as_str().unicode_len() == 0 {
            "trondb> "
        } else {
            "   ...> "
        }
    }

    /// Takes a line. White space at its ends does not count. A line with a dot in front is
    /// a command, unless a statement was begun; any other is added to the statement.
    pub fn feed(&mut self, line: &str) -> (r: ShellAction)
        ensures
            ({
                let entered = trimmed(line@);
                let command = old(self)@.len() == 0 && text::has_prefix(entered, "."@);
                let whole = old(self)@ + entered + " "@;
                match r {
                    ShellAction::Command(c) => command && final(self)@ == old(self)@ && c == command_of(entered),
                    ShellAction::ReadOn => !command && !finished(whole) && final(self)@ == whole,
                    ShellAction::Run(s) => !command && finished(whole) && s@ == trimmed(whole) && final(self)@
                        == Seq::<char>::empty(),
                }
            }),
    {
        let entered = trim(line);
        if self.buffer.as_str().unicode_len() == 0 && starts_with(entered.as_str(), ".") {
            return ShellAction::Command(dot_command(entered.as_str()));
        }
        let whole = cat3(self.buffer.as_str(), entered.as_str(), " ");
        let cs = chars_of(whole.as_str());
        let n = end_of(&cs);
        if n == 0 || cs[n - 1] != ';' {
            self.buffer = whole;
            return ShellAction::ReadOn;
        }
        let statement = trim(whole.as_str());
        self.buffer = String::new();
        assert(self@ =~= Seq::<char>::empty());
        ShellAction::Run(statement)
    }

    /// Forgets what was entered of a statement.
    pub fn clear(&mut self)
        ensures
            final(self)@ == Seq::<char>::empty(),
    {
        self.buffer = String::new();
        assert(self@ =~= Seq::<char>::empty());
    }
}

} // verus!
