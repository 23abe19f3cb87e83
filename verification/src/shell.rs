//! The command line of the kernel's shell: how a line is typed, how it is cut
//! into arguments, and what the shell answers.
use stack_vec::StackVec64;
use vstd::prelude::*;
use vstd::string::{StrSliceExecFns, StringExecFns};

verus! {

/// The most bytes that a command line holds.
pub const MAX_BYTES_PER_COMMAND: usize = 512;

/// The most arguments that a command holds.
pub const MAX_ARGS_PER_COMMAND: usize = 64;

/// The arguments of a command line: its runs of characters other than the
/// space, from left to right.
///
/// A character other than the space lengthens the last argument where the
/// character before it is no space, and begins a new argument otherwise.
pub open spec fn arguments(line: Seq<char>) -> Seq<Seq<char>>
    decreases line.len(),
{
    if line.len() == 0 {
        Seq::empty()
    } else {
        let before = arguments(line.drop_last());
        let c = line.last();
        if c == ' ' {
            before
        } else if line.len() >= 2 && line[line.len() - 2] != ' ' {
            before.drop_last().push(before.last().push(c))
        } else {
            before.push(seq![c])
        }
    }
}

/// One more character takes no argument away, and a line that ends in a
/// character other than the space has an argument.
pub proof fn lemma_arguments_step(line: Seq<char>)
    requires
        line.len() > 0,
    ensures
        arguments(line.drop_last()).len() <= arguments(line).len(),
        line.last() != ' ' ==> arguments(line).len() >= 1,
    decreases line.len(),
{
    if line.len() >= 2 {
        lemma_arguments_step(line.drop_last());
    }
}

/// An argument is not empty and holds no space.
pub proof fn lemma_arguments_hold_no_space(line: Seq<char>)
    ensures
        forall|i: int|
            0 <= i < arguments(line).len() ==> (#[trigger] arguments(line)[i]).len() > 0,
        forall|i: int, j: int|
            0 <= i < arguments(line).len() && 0 <= j < arguments(line)[i].len()
                ==> #[trigger] arguments(line)[i][j] != ' ',
    decreases line.len(),
{
    if line.len() > 0 {
        lemma_arguments_hold_no_space(line.drop_last());
        if line.len() >= 2 {
            lemma_arguments_step(line.drop_last());
        }
    }
}

/// A line has at least as many arguments as each of its beginnings.
pub proof fn lemma_arguments_grow(line: Seq<char>, end: int)
    requires
        0 <= end <= line.len(),
    ensures
        arguments(line.subrange(0, end)).len() <= arguments(line).len(),
    decreases line.len() - end,
{
    if end < line.len() {
        lemma_arguments_grow(line, end + 1);
        lemma_arguments_step(line.subrange(0, end + 1));
        assert(line.subrange(0, end + 1).drop_last() == line.subrange(0, end));
    } else {
        assert(line.subrange(0, end) == line);
    }
}

/// A space adds no argument.
pub proof fn lemma_arguments_space(line: Seq<char>, end: int)
    requires
        0 <= end < line.len(),
        line[end] == ' ',
    ensures
        arguments(line.subrange(0, end + 1)) == arguments(line.subrange(0, end)),
{
    assert(line.subrange(0, end + 1).drop_last() == line.subrange(0, end));
}

/// A run of characters other than the space, behind a space or at the
/// beginning of the line, is one argument.
pub proof fn lemma_arguments_run(line: Seq<char>, start: int, end: int)
    requires
        0 <= start < end <= line.len(),
        start > 0 ==> line[start - 1] == ' ',
        forall|j: int| start <= j < end ==> line[j] != ' ',
    ensures
        arguments(line.subrange(0, end)) == arguments(line.subrange(0, start)).push(
            line.subrange(start, end),
        ),
    decreases end - start,
{
    let head = line.subrange(0, end);
    assert(head.drop_last() == line.subrange(0, end - 1));
    assert(head.last() == line[end - 1]);
    if end == start + 1 {
        assert(line.subrange(start, end) == seq![line[start]]);
        if head.len() >= 2 {
            assert(head[head.len() - 2] == line[start - 1]);
        }
    } else {
        lemma_arguments_run(line, start, end - 1);
        assert(head[head.len() - 2] == line[end - 2]);
        assert(line.subrange(start, end - 1).push(line[end - 1]) == line.subrange(start, end));
        let before = arguments(line.subrange(0, end - 1));
        let base = arguments(line.subrange(0, start));
        assert(before.drop_last() == base);
    }
}

/// A `StackVec64` of string slices: at most 64 of them, kept without a heap.
#[verifier::external_body]
pub struct Args<'a> {
    stack: StackVec64<&'a str>,
}

/// The items that an `Args` holds, in the order in which they were pushed,
/// each as its characters.
pub uninterp spec fn stack_items(args: Args) -> Seq<Seq<char>>;

/// `StackVec64::new`: the new vector holds nothing.
#[verifier::external_body]
fn stack_new<'a>() -> (args: Args<'a>)
    ensures
        stack_items(args) == Seq::<Seq<char>>::empty(),
{
    Args { stack: StackVec64::new() }
}

/// `StackVec64::try_push`: below 64 items the value becomes the last item;
/// at 64 the vector stays as it is and the value is handed back.
#[verifier::external_body]
fn stack_try_push<'a>(args: &mut Args<'a>, value: &'a str) -> (result: Result<(), &'a str>)
    ensures
        result is Ok <==> stack_items(*old(args)).len() < 64,
        result is Ok ==> stack_items(*final(args)) == stack_items(*old(args)).push(value@),
        result matches Err(back) ==> back@ == value@ && stack_items(*final(args)) == stack_items(
            *old(args),
        ),
{
    args.stack.try_push(value)
}

/// `StackVec64::len`: the number of items.
#[verifier::external_body]
fn stack_len(args: &Args) -> (len: usize)
    ensures
        len == stack_items(*args).len(),
{
    args.stack.len()
}

/// `StackVec64::as_slice`, indexed: the item at `index`.
#[verifier::external_body]
fn stack_get<'a>(args: &Args<'a>, index: usize) -> (item: &'a str)
    requires
        index < stack_items(*args).len(),
    ensures
        item@ == stack_items(*args)[index as int],
{
    args.stack.as_slice()[index]
}

/// Why a line is no command.
#[derive(Clone, Copy, Debug, PartialEq, Eq, Structural)]
pub enum Error {
    /// The line has no argument.
    Empty,
    /// The line has more arguments than a command holds.
    TooManyArgs,
}

/// A command: the arguments of one line, between 1 and 64 of them.
///
/// The view is the sequence of the arguments, each as its characters.
pub struct Command<'a> {
    args: Args<'a>,
}

impl<'a> View for Command<'a> {
    type V = Seq<Seq<char>>;

    closed spec fn view(&self) -> Seq<Seq<char>> {
        stack_items(self.args)
    }
}

impl<'a> Command<'a> {
    /// A command has a path, and no more arguments than it can hold.
    pub open spec fn wf(&self) -> bool {
        1 <= self@.len() <= MAX_ARGS_PER_COMMAND
    }

    /// Cuts the line `s` into its arguments.
    pub fn parse(s: &'a str) -> (result: Result<Command<'a>, Error>)
        ensures
            match result {
                Ok(command) => command@ == arguments(s@) && command.wf(),
                Err(Error::Empty) => arguments(s@).len() == 0,
                Err(Error::TooManyArgs) => arguments(s@).len() > MAX_ARGS_PER_COMMAND,
            },
    {
        let n = s.unicode_len();
        let mut args = stack_new();
        let mut start: usize = 0;
        let mut i: usize = 0;
        while i < n
            invariant
                n == s@.len(),
                start <= i <= n,
                stack_items(args) == arguments(s@.subrange(0, start as int)),
                stack_items(args).len() <= 64,
                start > 0 ==> s@[start - 1] == ' ',
                forall|j: int| start <= j < i ==> s@[j] != ' ',
            decreases n - i,
        {
            if s.get_char(i) == ' ' {
                if start < i {
                    proof {
                        lemma_arguments_run(s@, start as int, i as int);
                        lemma_arguments_grow(s@, i as int);
                    }
                    if stack_try_push(&mut args, s.substring_char(start, i)).is_err() {
                        return Err(Error::TooManyArgs);
                    }
                }
                proof {
                    lemma_arguments_space(s@, i as int);
                }
                start = i + 1;
            }
            i = i + 1;
        }
        if start < n {
            proof {
                lemma_arguments_run(s@, start as int, n as int);
                lemma_arguments_grow(s@, n as int);
            }
            if stack_try_push(&mut args, s.substring_char(start, n)).is_err() {
                return Err(Error::TooManyArgs);
            }
        }
        assert(s@.subrange(0, n as int) == s@);
        if stack_len(&args) == 0 {
            Err(Error::Empty)
        } else {
            Ok(Command { args })
        }
    }

    /// The number of arguments, the path among them.
    pub fn len(&self) -> (n: usize)
        ensures
            n == self@.len(),
    {
        stack_len(&self.args)
    }

    /// The argument at `index`.
    pub fn arg(&self, index: usize) -> (arg: &'a str)
        requires
            index < self@.len(),
        ensures
            arg@ == self@[index as int],
    {
        stack_get(&self.args, index)
    }

    /// The command's path: its first argument.
    pub fn path(&self) -> (path: &'a str)
        requires
            self.wf(),
        ensures
            path@ == self@[0],
    {
        stack_get(&self.args, 0)
    }
}

/// Whether two string slices hold the same characters.
fn same_text(a: &str, b: &str) -> (same: bool)
    ensures
        same == (a@ == b@),
{
    let n = a.unicode_len();
    if n != b.unicode_len() {
        return false;
    }
    let mut i: usize = 0;
    while i < n
        invariant
            n == a@.len(),
            n == b@.len(),
            i <= n,
            a@.subrange(0, i as int) == b@.subrange(0, i as int),
        decreases n - i,
    {
        if a.get_char(i) != b.get_char(i) {
            return false;
        }
        assert(a@.subrange(0, i + 1) == a@.subrange(0, i as int).push(a@[i as int]));
        assert(b@.subrange(0, i + 1) == b@.subrange(0, i as int).push(b@[i as int]));
        i = i + 1;
    }
    assert(a@.subrange(0, n as int) == a@);
    assert(b@.subrange(0, n as int) == b@);
    true
}

/// What `echo` prints for `args`: each of them with a space behind it.
pub open spec fn echo_text(args: Seq<Seq<char>>) -> Seq<char>
    decreases args.len(),
{
    if args.len() == 0 {
        Seq::empty()
    } else {
        echo_text(args.drop_last()) + args.last() + seq![' ']
    }
}

/// What the shell prints in answer to a line.
///
/// `echo` prints its arguments. Any other command is unknown. A line that is
/// no command, for want of arguments or for too many, is an error.
pub open spec fn reply(line: Seq<char>) -> Seq<char> {
    let args = arguments(line);
    if args.len() == 0 || args.len() > MAX_ARGS_PER_COMMAND {
        "error\n"@
    } else if args[0] == "echo"@ {
        echo_text(args.subrange(1, args.len() as int)) + "\n"@
    } else {
        "unknown command: "@ + args[0] + "\n"@
    }
}

/// The shell's answer to the line `line`, as the text to print.
pub fn respond(line: &str) -> (out: String)
    ensures
        out@ == reply(line@),
{
    match Command::parse(line) {
        Err(_) => String::from_str("error\n"),
        Ok(command) => {
            let path = command.path();
            if same_text(path, "echo") {
                let n = command.len();
                let mut out = String::new();
                let mut i: usize = 1;
                while i < n
                    invariant
                        n == command@.len(),
                        1 <= i <= n,
                        out@ == echo_text(command@.subrange(1, i as int)),
                    decreases n - i,
                {
                    out.append(command.arg(i));
                    out.append(" ");
                    proof {
                        reveal_strlit(" ");
                        let more = command@.subrange(1, i + 1);
                        assert(more.drop_last() == command@.subrange(1, i as int));
                        assert(more.last() == command@[i as int]);
                        assert(" "@ == seq![' ']);
                    }
                    i = i + 1;
                }
                out.append("\n");
                out
            } else {
                let mut out = String::from_str("unknown command: ");
                out.append(path);
                out.append("\n");
                out
            }
        },
    }
}

/// What the console does on a byte that was typed.
#[derive(Clone, Copy, Debug, PartialEq, Eq, Structural)]
pub enum Action {
    /// The line is complete.
    Done,
    /// The byte is dropped: nothing to erase, or no room left.
    Ignore,
    /// The last byte left the line: wipe it off the screen.
    Erase,
    /// The byte joined the line: print it.
    Echo(u8),
}

/// The line after `byte` was typed, and what the console does.
///
/// A carriage return or a line feed completes the line. A backspace or a
/// delete takes the last byte off, where there is one. Any other byte joins
/// the line while it holds fewer than 512 bytes.
pub open spec fn typed(line: Seq<u8>, byte: u8) -> (Seq<u8>, Action) {
    if byte == 13 || byte == 10 {
        (line, Action::Done)
    } else if byte == 8 || byte == 127 {
        if line.len() == 0 {
            (line, Action::Ignore)
        } else {
            (line.drop_last(), Action::Erase)
        }
    } else if line.len() >= MAX_BYTES_PER_COMMAND {
        (line, Action::Ignore)
    } else {
        (line.push(byte), Action::Echo(byte))
    }
}

/// The line that is being typed. The view is its bytes.
pub struct LineBuffer {
    bytes: Vec<u8>,
}

impl View for LineBuffer {
    type V = Seq<u8>;

    closed spec fn view(&self) -> Seq<u8> {
        self.bytes@
    }
}

impl LineBuffer {
    /// An empty line.
    pub fn new() -> (line: LineBuffer)
        ensures
            line@ == Seq::<u8>::empty(),
    {
        LineBuffer { bytes: Vec::new() }
    }

    /// Takes the byte that was typed, and says what the console does.
    pub fn feed(&mut self, byte: u8) -> (action: Action)
        ensures
            final(self)@ == typed(old(self)@, byte).0,
            action == typed(old(self)@, byte).1,
            old(self)@.len() <= MAX_BYTES_PER_COMMAND ==> final(self)@.len()
                <= MAX_BYTES_PER_COMMAND,
    {
        if byte == 13 || byte == 10 {
            Action::Done
        } else if byte == 8 || byte == 127 {
            if self.bytes.len() == 0 {
                Action::Ignore
            } else {
                self.bytes.pop();
                Action::Erase
            }
        } else if self.bytes.len() >= MAX_BYTES_PER_COMMAND {
            Action::Ignore
        } else {
            self.bytes.push(byte);
            Action::Echo(byte)
        }
    }

    /// The bytes of the line.
    pub fn as_bytes(&self) -> (bytes: &[u8])
        ensures
            bytes@ == self@,
    {
        self.bytes.as_slice()
    }
}

} // verus!
