//! The arguments of a filter run, as byte strings: which file to read, which
//! file to write, and the clip amount as it was typed.

use vstd::prelude::*;

verus! {

/// The double quote.
pub const QUOTE: u8 = 0x22;

/// The apostrophe.
pub const APOSTROPHE: u8 = 0x27;

/// The equals sign, which separates a flag from a value in one argument.
pub const EQUALS: u8 = 0x3d;

/// What a flag asks for.
#[derive(Clone, Copy, Debug, PartialEq, Eq, Structural)]
pub enum Flag {
    Input,
    Output,
    Clip,
}

/// Why a list of arguments does not describe a run.
#[derive(Clone, Copy, Debug, PartialEq, Eq, Structural)]
pub enum ConfigurationError {
    /// The list is empty.
    NoArguments,
    /// The flag at `position` is the last argument and carries no value.
    MissingValue { position: usize },
    /// No input file was named.
    MissingInput,
    /// No output file was named.
    MissingOutput,
}

/// The text without its quotes and apostrophes.
pub open spec fn unquoted(text: Seq<u8>) -> Seq<u8>
    decreases text.len(),
{
    if text.len() == 0 {
        Seq::empty()
    } else if text.last() == QUOTE || text.last() == APOSTROPHE {
        unquoted(text.drop_last())
    } else {
        unquoted(text.drop_last()).push(text.last())
    }
}

/// The position of the first equals sign at or after `from`, or the length
/// of the text if there is none.
pub open spec fn first_equals(text: Seq<u8>, from: int) -> int
    decreases text.len() - from,
{
    if from < 0 || from >= text.len() {
        text.len() as int
    } else if text[from] == EQUALS {
        from
    } else {
        first_equals(text, from + 1)
    }
}

/// The part of an argument before its first equals sign.
pub open spec fn key_of(text: Seq<u8>) -> Seq<u8> {
    text.subrange(0, first_equals(text, 0))
}

/// The argument holds an equals sign, and so a value of its own.
pub open spec fn has_value(text: Seq<u8>) -> bool {
    first_equals(text, 0) < text.len()
}

/// The part of an argument between its first equals sign and its second, or
/// the end.
pub open spec fn value_of(text: Seq<u8>) -> Seq<u8>
    recommends
        has_value(text),
{
    text.subrange(first_equals(text, 0) + 1, first_equals(text, first_equals(text, 0) + 1))
}

/// A capital letter as its small letter; every other byte as itself.
pub open spec fn lower(b: u8) -> u8 {
    if 'A' as u8 <= b <= 'Z' as u8 {
        (b + 0x20) as u8
    } else {
        b
    }
}

/// The text with its capital letters made small.
pub open spec fn lowered(text: Seq<u8>) -> Seq<u8> {
    Seq::new(text.len(), |i: int| lower(text[i]))
}

/// The bytes of `-i`.
pub open spec fn input_short() -> Seq<u8> {
    seq!['-' as u8, 'i' as u8]
}

/// The bytes of `--input`.
pub open spec fn input_long() -> Seq<u8> {
    seq!['-' as u8, '-' as u8, 'i' as u8, 'n' as u8, 'p' as u8, 'u' as u8, 't' as u8]
}

/// The bytes of `-o`.
pub open spec fn output_short() -> Seq<u8> {
    seq!['-' as u8, 'o' as u8]
}

/// The bytes of `--output`.
pub open spec fn output_long() -> Seq<u8> {
    seq!['-' as u8, '-' as u8, 'o' as u8, 'u' as u8, 't' as u8, 'p' as u8, 'u' as u8, 't' as u8]
}

/// The bytes of `-clip`.
pub open spec fn clip_short() -> Seq<u8> {
    seq!['-' as u8, 'c' as u8, 'l' as u8, 'i' as u8, 'p' as u8]
}

/// The bytes of `--clip`.
pub open spec fn clip_long() -> Seq<u8> {
    seq!['-' as u8, '-' as u8, 'c' as u8, 'l' as u8, 'i' as u8, 'p' as u8]
}

/// The flag that a key names, whatever the case of its letters: `-i` and
/// `--input`, `-o` and `--output`, `-clip` and `--clip`.
pub open spec fn flag_named(key: Seq<u8>) -> Option<Flag> {
    let k = lowered(key);
    if k == input_short() || k == input_long() {
        Some(Flag::Input)
    } else if k == output_short() || k == output_long() {
        Some(Flag::Output)
    } else if k == clip_short() || k == clip_long() {
        Some(Flag::Clip)
    } else {
        None
    }
}

/// What a list of arguments asks for: the input file, the output file, and
/// the clip amount as it was typed, if one was given.
pub struct Request {
    pub input: Seq<u8>,
    pub output: Seq<u8>,
    pub clip: Option<Seq<u8>>,
}

/// The value that belongs to the flag at `position`: the argument's own
/// value where it holds an equals sign, otherwise the argument that follows,
/// taken as it stands.
pub open spec fn value_at(args: Seq<Seq<u8>>, position: int) -> Option<Seq<u8>> {
    let text = unquoted(args[position]);
    if has_value(text) {
        Some(value_of(text))
    } else if position + 1 < args.len() {
        Some(args[position + 1])
    } else {
        None
    }
}

/// The request with the value stored where the flag says.
pub open spec fn with_value(request: Request, flag: Flag, value: Seq<u8>) -> Request {
    match flag {
        Flag::Input => Request { input: value, ..request },
        Flag::Output => Request { output: value, ..request },
        Flag::Clip => Request { clip: Some(value), ..request },
    }
}

/// What the first `count` arguments ask for. Each argument is read without
/// its quotes; one whose key names a flag stores its value, a later one
/// replacing an earlier one; every other argument is passed over. The first
/// flag without a value ends the reading.
pub open spec fn read_upto(args: Seq<Seq<u8>>, count: int) -> Result<Request, ConfigurationError>
    decreases count,
{
    if count <= 0 {
        Ok(Request { input: Seq::empty(), output: Seq::empty(), clip: None })
    } else {
        match read_upto(args, count - 1) {
            Err(e) => Err(e),
            Ok(request) => match flag_named(key_of(unquoted(args[count - 1]))) {
                None => Ok(request),
                Some(flag) => match value_at(args, count - 1) {
                    None => Err(ConfigurationError::MissingValue { position: (count - 1) as usize }),
                    Some(value) => Ok(with_value(request, flag, value)),
                },
            },
        }
    }
}

/// What a list of arguments asks for, or why it describes no run: it is
/// empty, a flag lacks its value, or it names no input or no output file.
pub open spec fn read(args: Seq<Seq<u8>>) -> Result<Request, ConfigurationError> {
    if args.len() == 0 {
        Err(ConfigurationError::NoArguments)
    } else {
        match read_upto(args, args.len() as int) {
            Err(e) => Err(e),
            Ok(request) => if request.input.len() == 0 {
                Err(ConfigurationError::MissingInput)
            } else if request.output.len() == 0 {
                Err(ConfigurationError::MissingOutput)
            } else {
                Ok(request)
            },
        }
    }
}

/// The file name as the run uses it: a name that holds a separator stands
/// as it is, every other name is put behind the working directory.
pub open spec fn resolved(file: Seq<u8>, directory: Seq<u8>, separator: u8) -> Seq<u8> {
    if file.contains(separator) {
        file
    } else {
        directory + file
    }
}

/// Copies the text without its quotes and apostrophes.
pub fn strip_quotes(text: &Vec<u8>) -> (stripped: Vec<u8>)
    ensures
        stripped@ == unquoted(text@),
{
    let mut stripped: Vec<u8> = Vec::new();
    let mut i: usize = 0;
    while i < text.len()
        invariant
            i <= text@.len(),
            stripped@ == unquoted(text@.take(i as int)),
        decreases text@.len() - i,
    {
        proof {
            assert(text@.take(i + 1).drop_last() =~= text@.take(i as int));
            assert(text@.take(i + 1).last() == text@[i as int]);
        }
        let b = text[i];
        if b != QUOTE && b != APOSTROPHE {
            stripped.push(b);
        }
        i = i + 1;
    }
    proof {
        assert(text@.take(text@.len() as int) =~= text@);
    }
    stripped
}

/// Finds the first equals sign at or after `from`.
fn find_equals(text: &Vec<u8>, from: usize) -> (at: usize)
    requires
        from <= text@.len(),
    ensures
        at == first_equals(text@, from as int),
        from <= at <= text@.len(),
{
    let mut at: usize = from;
    while at < text.len() && text[at] != EQUALS
        invariant
            from <= at <= text@.len(),
            first_equals(text@, from as int) == first_equals(text@, at as int),
        decreases text@.len() - at,
    {
        at = at + 1;
    }
    at
}

/// Copies the bytes from `from` up to `to`.
fn copy_range(text: &Vec<u8>, from: usize, to: usize) -> (part: Vec<u8>)
    requires
        from <= to <= text@.len(),
    ensures
        part@ == text@.subrange(from as int, to as int),
{
    let mut part: Vec<u8> = Vec::new();
    let mut i: usize = from;
    while i < to
        invariant
            from <= i <= to <= text@.len(),
            part@ == text@.subrange(from as int, i as int),
        decreases to - i,
    {
        part.push(text[i]);
        assert(part@ =~= text@.subrange(from as int, i + 1));
        i = i + 1;
    }
    assert(part@ =~= text@.subrange(from as int, to as int));
    part
}

/// Whether the key, with its capital letters made small, spells `word`.
fn spells<const N: usize>(key: &Vec<u8>, word: &[u8; N]) -> (same: bool)
    ensures
        same == (lowered(key@) == word@),
{
    if key.len() != N {
        return false;
    }
    let mut i: usize = 0;
    while i < N
        invariant
            key@.len() == N,
            word@.len() == N,
            i <= N,
            forall|j: int| 0 <= j < i ==> lower(key@[j]) == word@[j],
        decreases N - i,
    {
        let b = key[i];
        let small: u8 = if 'A' as u8 <= b && b <= 'Z' as u8 {
            b + 0x20
        } else {
            b
        };
        if small != word[i] {
            assert(lowered(key@)[i as int] != word@[i as int]);
            return false;
        }
        i = i + 1;
    }
    assert(lowered(key@) =~= word@);
    true
}

/// The flag that a key names, if it names one.
pub fn flag_of(key: &Vec<u8>) -> (flag: Option<Flag>)
    ensures
        flag == flag_named(key@),
{
    let input_short: [u8; 2] = ['-' as u8, 'i' as u8];
    let input_long: [u8; 7] = [
        '-' as u8,
        '-' as u8,
        'i' as u8,
        'n' as u8,
        'p' as u8,
        'u' as u8,
        't' as u8,
    ];
    let output_short: [u8; 2] = ['-' as u8, 'o' as u8];
    let output_long: [u8; 8] = [
        '-' as u8,
        '-' as u8,
        'o' as u8,
        'u' as u8,
        't' as u8,
        'p' as u8,
        'u' as u8,
        't' as u8,
    ];
    let clip_short: [u8; 5] = ['-' as u8, 'c' as u8, 'l' as u8, 'i' as u8, 'p' as u8];
    let clip_long: [u8; 6] = ['-' as u8, '-' as u8, 'c' as u8, 'l' as u8, 'i' as u8, 'p' as u8];
    proof {
        assert(input_short@ =~= self::input_short());
        assert(input_long@ =~= self::input_long());
        assert(output_short@ =~= self::output_short());
        assert(output_long@ =~= self::output_long());
        assert(clip_short@ =~= self::clip_short());
        assert(clip_long@ =~= self::clip_long());
    }
    if spells(key, &input_short) || spells(key, &input_long) {
        Some(Flag::Input)
    } else if spells(key, &output_short) || spells(key, &output_long) {
        Some(Flag::Output)
    } else if spells(key, &clip_short) || spells(key, &clip_long) {
        Some(Flag::Clip)
    } else {
        None
    }
}

/// The arguments of a run: the input file, the output file, and the clip
/// amount as it was typed, if one was given.
#[derive(Debug)]
pub struct Arguments {
    pub input: Vec<u8>,
    pub output: Vec<u8>,
    pub clip: Option<Vec<u8>>,
}

impl View for Arguments {
    type V = Request;

    open spec fn view(&self) -> Request {
        Request {
            input: self.input@,
            output: self.output@,
            clip: match self.clip {
                Some(text) => Some(text@),
                None => None,
            },
        }
    }
}

/// The arguments as byte strings.
pub open spec fn texts(args: &Vec<Vec<u8>>) -> Seq<Seq<u8>> {
    Seq::new(args@.len(), |i: int| args@[i]@)
}

/// The outcome of reading says what `expected` says.
pub open spec fn agrees(
    outcome: Result<Arguments, ConfigurationError>,
    expected: Result<Request, ConfigurationError>,
) -> bool {
    match (outcome, expected) {
        (Ok(arguments), Ok(request)) => arguments@ == request,
        (Err(e), Err(f)) => e == f,
        _ => false,
    }
}

/// Reads the arguments of a run. Flags are `-i` or `--input`, `-o` or
/// `--output`, and `-clip` or `--clip`, in any case of letters; a flag takes
/// its value after an equals sign in the same argument, or from the argument
/// that follows. Quotes and apostrophes in an argument are ignored.
pub fn parse_arguments(args: &Vec<Vec<u8>>) -> (outcome: Result<Arguments, ConfigurationError>)
    ensures
        agrees(outcome, read(texts(args))),
{
    if args.len() == 0 {
        return Err(ConfigurationError::NoArguments);
    }
    let mut arguments = Arguments { input: Vec::new(), output: Vec::new(), clip: None };
    let ghost all = texts(args);
    let mut i: usize = 0;
    while i < args.len()
        invariant
            all == texts(args),
            i <= args@.len(),
            read_upto(all, i as int) == Ok::<Request, ConfigurationError>(arguments@),
        decreases args@.len() - i,
    {
        let text = strip_quotes(&args[i]);
        let split = find_equals(&text, 0);
        let key = copy_range(&text, 0, split);
        match flag_of(&key) {
            None => {},
            Some(flag) => {
                let value = if split < text.len() {
                    let end = find_equals(&text, split + 1);
                    copy_range(&text, split + 1, end)
                } else if i + 1 < args.len() {
                    copy_range(&args[i + 1], 0, args[i + 1].len())
                } else {
                    return Err(ConfigurationError::MissingValue { position: i });
                };
                proof {
                    assert(args@[i + 1]@.subrange(0, args@[i + 1]@.len() as int) =~= args@[i + 1]@);
                    assert(value_at(all, i as int) == Some(value@));
                }
                match flag {
                    Flag::Input => {
                        arguments.input = value;
                    },
                    Flag::Output => {
                        arguments.output = value;
                    },
                    Flag::Clip => {
                        arguments.clip = Some(value);
                    },
                }
            },
        }
        i = i + 1;
    }
    if arguments.input.len() == 0 {
        Err(ConfigurationError::MissingInput)
    } else if arguments.output.len() == 0 {
        Err(ConfigurationError::MissingOutput)
    } else {
        Ok(arguments)
    }
}

/// Whether the text holds the byte.
fn holds(text: &Vec<u8>, byte: u8) -> (found: bool)
    ensures
        found == text@.contains(byte),
{
    let mut i: usize = 0;
    while i < text.len()
        invariant
            i <= text@.len(),
            forall|j: int| 0 <= j < i ==> text@[j] != byte,
        decreases text@.len() - i,
    {
        if text[i] == byte {
            assert(text@[i as int] == byte);
            return true;
        }
        i = i + 1;
    }
    false
}

/// Puts a file name that holds no separator behind the working directory;
/// a name that holds one is returned as it is.
pub fn resolve_path(file: &Vec<u8>, directory: &Vec<u8>, separator: u8) -> (path: Vec<u8>)
    ensures
        path@ == resolved(file@, directory@, separator),
{
    if holds(file, separator) {
        let path = copy_range(file, 0, file.len());
        assert(file@.subrange(0, file@.len() as int) =~= file@);
        path
    } else {
        let mut path = copy_range(directory, 0, directory.len());
        assert(directory@.subrange(0, directory@.len() as int) =~= directory@);
        let mut i: usize = 0;
        while i < file.len()
            invariant
                i <= file@.len(),
                path@ == directory@ + file@.take(i as int),
            decreases file@.len() - i,
        {
            path.push(file[i]);
            assert(path@ =~= directory@ + file@.take(i + 1));
            i = i + 1;
        }
        assert(file@.take(file@.len() as int) =~= file@);
        path
    }
}

} // verus!
