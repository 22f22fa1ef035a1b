//! The command line.
use vstd::prelude::*;

verus! {

/// The settings of a run.
#[derive(Clone, Copy, Debug, PartialEq, Eq)]
pub struct Args {
    /// How many windows to manage per workspace.
    pub max_tiles: usize,
    /// Whether to re-tile windows that are moved between workspaces.
    pub apply_on_move: bool,
}

/// What a command line asks for.
#[derive(Debug, PartialEq, Eq)]
pub enum Invocation {
    Run(Args),
    Help,
    /// `-n` is not followed by a number of 1 or more.
    BadCount,
    UnknownOption(String),
}

/// An [`Invocation`] with the option as a sequence of characters.
pub enum Request {
    Run(Args),
    Help,
    BadCount,
    UnknownOption(Seq<char>),
}

impl View for Invocation {
    type V = Request;

    open spec fn view(&self) -> Request {
        match *self {
            Invocation::Run(args) => Request::Run(args),
            Invocation::Help => Request::Help,
            Invocation::BadCount => Request::BadCount,
            Invocation::UnknownOption(option) => Request::UnknownOption(option@),
        }
    }
}

/// The settings when nothing else is asked for.
pub open spec fn default_args() -> Args {
    Args { max_tiles: 2, apply_on_move: true }
}

/// Whether all characters are decimal digits.
pub open spec fn all_digits(text: Seq<char>) -> bool {
    forall|i: int| 0 <= i < text.len() ==> '0' <= #[trigger] text[i] <= '9'
}

/// The number that decimal digits stand for.
pub open spec fn decimal(digits: Seq<char>) -> nat
    decreases digits.len(),
{
    if digits.len() == 0 {
        0
    } else {
        (10 * decimal(digits.drop_last()) + (digits.last() as int - '0' as int)) as nat
    }
}

/// The number that a text stands for: decimal digits, at least one, with or without a plus sign.
pub open spec fn number(text: Seq<char>) -> Option<nat> {
    let digits = if text.len() > 0 && text[0] == '+' {
        text.skip(1)
    } else {
        text
    };
    if digits.len() > 0 && all_digits(digits) {
        Some(decimal(digits))
    } else {
        None
    }
}

/// The count that a text stands for: a number from 1 up to what the machine can hold.
pub open spec fn count(text: Seq<char>) -> Option<usize> {
    match number(text) {
        Some(n) => if 1 <= n <= usize::MAX {
            Some(n as usize)
        } else {
            None
        },
        None => None,
    }
}

/// The arguments as sequences of characters.
pub open spec fn texts(args: Seq<String>) -> Seq<Seq<char>> {
    args.map_values(|arg: String| arg@)
}

/// What a command line asks for, given the settings so far. Options are read from left to right, and
/// the first one that asks for help or is wrong decides.
pub open spec fn request(args: Seq<Seq<char>>, settings: Args) -> Request
    decreases args.len(),
{
    if args.len() == 0 {
        Request::Run(settings)
    } else if args[0] == "-n"@ {
        if args.len() == 1 {
            Request::BadCount
        } else {
            match count(args[1]) {
                Some(max_tiles) => request(args.skip(2), Args { max_tiles, ..settings }),
                None => Request::BadCount,
            }
        }
    } else if args[0] == "-M"@ || args[0] == "--no-move"@ {
        request(args.skip(1), Args { apply_on_move: false, ..settings })
    } else if args[0] == "-h"@ || args[0] == "--help"@ {
        Request::Help
    } else {
        Request::UnknownOption(args[0])
    }
}

/// How far a command line has been read.
#[derive(Clone, Copy, Debug, PartialEq, Eq)]
pub struct Reader {
    /// The settings so far.
    pub settings: Args,
    /// Whether the last argument was `-n`, so that a count is to follow.
    pub wants_count: bool,
}

/// What reading one more argument comes to.
#[derive(Debug, PartialEq, Eq)]
pub enum Progress {
    /// What follows is still to be read.
    More(Reader),
    /// What follows does not matter.
    Decided(Invocation),
}

/// A [`Progress`] with the option as a sequence of characters.
pub enum Advance {
    More(Reader),
    Decided(Request),
}

impl View for Progress {
    type V = Advance;

    open spec fn view(&self) -> Advance {
        match *self {
            Progress::More(reader) => Advance::More(reader),
            Progress::Decided(invocation) => Advance::Decided(invocation@),
        }
    }
}

impl Reader {
    /// What the arguments ask for when they follow those that have been read.
    pub open spec fn asks(self, args: Seq<Seq<char>>) -> Request {
        if !self.wants_count {
            request(args, self.settings)
        } else if args.len() == 0 {
            Request::BadCount
        } else {
            match count(args[0]) {
                Some(max_tiles) => request(args.skip(1), Args { max_tiles, ..self.settings }),
                None => Request::BadCount,
            }
        }
    }

    /// What reading one more argument comes to.
    pub open spec fn after(self, arg: Seq<char>) -> Advance {
        if self.wants_count {
            match count(arg) {
                Some(max_tiles) => Advance::More(
                    Reader {
                        settings: Args { max_tiles, ..self.settings },
                        wants_count: false,
                    },
                ),
                None => Advance::Decided(Request::BadCount),
            }
        } else if arg == "-n"@ {
            Advance::More(Reader { wants_count: true, ..self })
        } else if arg == "-M"@ || arg == "--no-move"@ {
            Advance::More(Reader { settings: Args { apply_on_move: false, ..self.settings }, ..self })
        } else if arg == "-h"@ || arg == "--help"@ {
            Advance::Decided(Request::Help)
        } else {
            Advance::Decided(Request::UnknownOption(arg))
        }
    }
}

/// Reading a command line argument by argument comes to what the whole of it asks for.
pub proof fn law_read_in_turn(reader: Reader, args: Seq<Seq<char>>)
    requires
        args.len() > 0,
    ensures
        reader.asks(args) == (match reader.after(args[0]) {
            Advance::More(next) => next.asks(args.skip(1)),
            Advance::Decided(request) => request,
        }),
{
    if !reader.wants_count && args[0] == "-n"@ && args.len() > 1 {
        assert(args.skip(1).skip(1) =~= args.skip(2));
    }
}

/// Further digits make a number no smaller.
proof fn lemma_decimal_grows(digits: Seq<char>, upto: int)
    requires
        all_digits(digits),
        0 <= upto <= digits.len(),
    ensures
        decimal(digits.take(upto)) <= decimal(digits),
    decreases digits.len() - upto,
{
    if upto < digits.len() {
        lemma_decimal_grows(digits, upto + 1);
        assert(digits.take(upto + 1).drop_last() =~= digits.take(upto));
        assert(digits.take(upto + 1).last() == digits[upto]);
        assert('0' <= digits[upto] <= '9');
    } else {
        assert(digits.take(upto) =~= digits);
    }
}

/// The count that a text stands for.
pub fn parse_count(text: &str) -> (r: Option<usize>)
    ensures
        r == count(text@),
{
    let len = text.unicode_len();
    let first: usize = if len > 0 && text.get_char(0) == '+' { 1 } else { 0 };
    if len == first {
        return None;
    }
    let ghost digits = text@.skip(first as int);
    assert(first == 0 ==> digits =~= text@);
    let mut value: usize = 0;
    let mut i: usize = first;
    while i < len
        invariant
            first <= i <= len,
            len == text@.len(),
            digits == text@.skip(first as int),
            number(text@) == (if all_digits(digits) {
                Some(decimal(digits))
            } else {
                None
            }),
            all_digits(digits.take(i - first)),
            value == decimal(digits.take(i - first)),
        decreases len - i,
    {
        let c = text.get_char(i);
        assert(c == digits[i - first]);
        if c < '0' || c > '9' {
            assert(!all_digits(digits));
            return None;
        }
        let digit: usize = (c as u32 - '0' as u32) as usize;
        let ghost more = digits.take(i - first + 1);
        proof {
            assert(more.drop_last() =~= digits.take(i - first));
            assert(more.last() == c);
            assert forall|k: int| 0 <= k < more.len() implies '0' <= #[trigger] more[k] <= '9' by {
                if k < i - first {
                    assert(more[k] == digits.take(i - first)[k]);
                }
            }
        }
        if value > (usize::MAX - digit) / 10 {
            proof {
                assert(decimal(more) > usize::MAX);
                if all_digits(digits) {
                    lemma_decimal_grows(digits, i - first + 1);
                }
            }
            return None;
        }
        value = value * 10 + digit;
        i = i + 1;
    }
    assert(digits.take(i - first) =~= digits);
    if value >= 1 {
        Some(value)
    } else {
        None
    }
}

/// Whether an argument is the given option.
fn is_option(arg: &String, option: &str) -> (r: bool)
    ensures
        r == (arg@ == option@),
{
    *arg == option.to_owned()
}

impl Reader {
    /// A reader that has read nothing yet.
    pub fn new() -> (r: Reader)
        ensures
            r == (Reader { settings: default_args(), wants_count: false }),
    {
        Reader { settings: Args { max_tiles: 2, apply_on_move: true }, wants_count: false }
    }

    /// Reads one more argument.
    pub fn read(self, arg: &String) -> (r: Progress)
        ensures
            r@ == self.after(arg@),
    {
        let Reader { settings, wants_count } = self;
        if wants_count {
            match parse_count(arg.as_str()) {
                Some(max_tiles) => Progress::More(
                    Reader {
                        settings: Args { max_tiles, apply_on_move: settings.apply_on_move },
                        wants_count: false,
                    },
                ),
                None => Progress::Decided(Invocation::BadCount),
            }
        } else if is_option(arg, "-n") {
            Progress::More(Reader { settings, wants_count: true })
        } else if is_option(arg, "-M") || is_option(arg, "--no-move") {
            Progress::More(
                Reader {
                    settings: Args { max_tiles: settings.max_tiles, apply_on_move: false },
                    wants_count,
                },
            )
        } else if is_option(arg, "-h") || is_option(arg, "--help") {
            Progress::Decided(Invocation::Help)
        } else {
            Progress::Decided(Invocation::UnknownOption(arg.clone()))
        }
    }

    /// What the arguments that have been read ask for, when none follow.
    pub fn finish(self) -> (r: Invocation)
        ensures
            r@ == self.asks(Seq::empty()),
    {
        if self.wants_count {
            Invocation::BadCount
        } else {
            Invocation::Run(self.settings)
        }
    }
}

/// What the arguments of the program, without its name, ask for.
pub fn parse_args(args: &Vec<String>) -> (r: Invocation)
    ensures
        r@ == request(texts(args@), default_args()),
{
    let mut reader = Reader::new();
    let mut i: usize = 0;
    assert(texts(args@).skip(0) =~= texts(args@));
    while i < args.len()
        invariant
            i <= args.len(),
            request(texts(args@), default_args()) == reader.asks(texts(args@).skip(i as int)),
        decreases args.len() - i,
    {
        proof {
            let rest = texts(args@).skip(i as int);
            law_read_in_turn(reader, rest);
            assert(rest[0] == args@[i as int]@);
            assert(rest.skip(1) =~= texts(args@).skip(i + 1));
        }
        match reader.read(&args[i]) {
            Progress::More(next) => {
                reader = next;
            },
            Progress::Decided(invocation) => {
                return invocation;
            },
        }
        i = i + 1;
    }
    assert(texts(args@).skip(i as int) =~= Seq::empty());
    reader.finish()
}

} // verus!
