//! The command line.

use vstd::prelude::*;

use crate::error::{AppError, AppResult};
use crate::error;
use crate::pe::EntryPointRva;
use crate::process::ProcessId;
use crate::text::{begins_with, chars_of, is_text, joined, parse_number, text_of};
use crate::text;

verus! {

pub const HELP: &'static str =
    "mempe - Windows PE memory dumper and rebuilder\n\nUsage:\nmempe.exe -p <PID> [--entry-point <RVA>]\nmempe.exe -w <program.exe> [--entry-point <RVA>]\nmempe.exe -h\n";

/// An argument: its text, with replacement characters for what is not valid text.
#[derive(Debug)]
pub struct Argument {
    pub text: String,
    pub valid: bool,
}

/// An argument, seen mathematically.
pub struct ArgumentView {
    pub text: Seq<char>,
    pub valid: bool,
}

impl View for Argument {
    type V = ArgumentView;

    open spec fn view(&self) -> ArgumentView {
        ArgumentView { text: self.text@, valid: self.valid }
    }
}

/// What the user asks for.
#[derive(Debug, PartialEq, Eq)]
pub struct Request {
    pub command: Command,
    pub entry_point: Option<EntryPointRva>,
}

/// Which process is dumped: the one with a PID, or the next one with a name.
#[derive(Debug, PartialEq, Eq)]
pub enum Command {
    Pid(ProcessId),
    Watch(String),
}

/// Which process is dumped, seen mathematically.
pub enum CommandView {
    Pid(u32),
    Watch(Seq<char>),
}

/// What the user asks for, seen mathematically.
pub struct RequestView {
    pub command: CommandView,
    pub entry_point: Option<u32>,
}

impl View for Command {
    type V = CommandView;

    open spec fn view(&self) -> CommandView {
        match self {
            Command::Pid(pid) => CommandView::Pid(pid@),
            Command::Watch(name) => CommandView::Watch(name@),
        }
    }
}

impl View for Request {
    type V = RequestView;

    open spec fn view(&self) -> RequestView {
        RequestView {
            command: self.command@,
            entry_point: match self.entry_point {
                Some(rva) => Some(rva@),
                None => None,
            },
        }
    }
}

/// Arguments, seen mathematically.
pub open spec fn argument_views(args: Seq<Argument>) -> Seq<ArgumentView> {
    args.map_values(|argument: Argument| argument@)
}

/// The number that a text stands for: hexadecimal behind `0x` or `0X`, else decimal.
pub open spec fn number_of(string: Seq<char>) -> Option<nat> {
    if "0x"@.is_prefix_of(string) || "0X"@.is_prefix_of(string) {
        text::number(string.skip(2), 16, u32::MAX as nat)
    } else {
        text::number(string, 10, u32::MAX as nat)
    }
}

/// The number that a text stands for: hexadecimal behind `0x` or `0X`, else decimal.
pub fn parse_u32(string: &str) -> (value: Option<u32>)
    ensures
        match number_of(string@) {
            Some(expected) => value is Some && value->0 == expected,
            None => value is None,
        },
{
    let letters: Vec<char> = chars_of(string);
    if begins_with(&letters, "0x") || begins_with(&letters, "0X") {
        proof {
            reveal_strlit("0x");
            reveal_strlit("0X");
        }
        let digits: String = text_of(&letters, 2, letters.len());
        assert(digits@ =~= string@.skip(2));
        parse_number(digits.as_str(), 16, u32::MAX)
    } else {
        parse_number(string, 10, u32::MAX)
    }
}

/// The PID that an argument gives.
pub open spec fn pid_of(value: ArgumentView) -> Result<u32, Seq<char>> {
    if !value.valid {
        Err("PID must use valid text"@)
    } else {
        match number_of(value.text) {
            None => Err("invalid PID: "@ + value.text),
            Some(number) => if number == 0 {
                Err("PID must be greater than zero"@)
            } else {
                Ok(number as u32)
            },
        }
    }
}

/// The PID that an argument gives.
pub fn parse_pid(value: &Argument) -> (pid: AppResult<ProcessId>)
    ensures
        error::agrees(pid, pid_of(value@)),
{
    if !value.valid {
        return Err(AppError::fixed("PID must use valid text"));
    }
    match parse_u32(value.text.as_str()) {
        None => Err(AppError::new(joined("invalid PID: ", value.text.as_str()))),
        Some(number) => match ProcessId::new(number) {
            Some(pid) => Ok(pid),
            None => Err(AppError::fixed("PID must be greater than zero")),
        },
    }
}

/// The text holds a separator of paths.
pub open spec fn holds_separator(string: Seq<char>) -> bool {
    string.contains('\\') || string.contains('/')
}

/// The process name that an argument gives.
pub open spec fn watch_name_of(value: ArgumentView) -> Result<Seq<char>, Seq<char>> {
    if !value.valid {
        Err("process name must use valid text"@)
    } else if value.text.len() == 0 {
        Err("process name cannot be empty"@)
    } else if holds_separator(value.text) {
        Err("-w takes a file name, not a path"@)
    } else {
        Ok(value.text)
    }
}

fn has_separator(string: &String) -> (yes: bool)
    ensures
        yes == holds_separator(string@),
{
    let letters: Vec<char> = chars_of(string.as_str());
    let mut index: usize = 0;
    while index < letters.len()
        invariant
            index <= letters@.len(),
            letters@ == string@,
            forall|i: int| 0 <= i < index ==> letters@[i] != '\\' && letters@[i] != '/',
        decreases letters@.len() - index,
    {
        if letters[index] == '\\' || letters[index] == '/' {
            assert(string@.contains(letters@[index as int]));
            return true;
        }
        index = index + 1;
    }
    false
}

/// The process name that an argument gives.
pub fn parse_watch_name(value: &Argument) -> (name: AppResult<String>)
    ensures
        error::agrees(name, watch_name_of(value@)),
{
    if !value.valid {
        return Err(AppError::fixed("process name must use valid text"));
    }
    if value.text.as_str().is_empty() {
        return Err(AppError::fixed("process name cannot be empty"));
    }
    if has_separator(&value.text) {
        return Err(AppError::fixed("-w takes a file name, not a path"));
    }
    Ok(value.text.clone())
}

/// What is said of an option that there is not.
pub open spec fn unknown_option(option: Seq<char>) -> Seq<char> {
    "unknown option: "@ + option
}

/// The entry point that the arguments from `from` on give.
pub open spec fn entry_point_of(args: Seq<ArgumentView>, from: int) -> Result<
    Option<u32>,
    Seq<char>,
> {
    if from >= args.len() {
        Ok(None)
    } else if args[from].text != "-e"@ && args[from].text != "--entry-point"@ {
        Err(unknown_option(args[from].text))
    } else if from + 1 >= args.len() {
        Err("--entry-point needs an RVA"@)
    } else if from + 2 < args.len() {
        Err("too many arguments"@)
    } else if !args[from + 1].valid {
        Err("entry-point RVA must use valid text"@)
    } else {
        match number_of(args[from + 1].text) {
            None => Err("invalid entry-point RVA: "@ + args[from + 1].text),
            Some(number) => if number == 0 {
                Err("entry-point RVA must be greater than zero"@)
            } else {
                Ok(Some(number as u32))
            },
        }
    }
}

/// The entry point that the arguments from `from` on give.
pub fn parse_entry_point_option(args: &Vec<Argument>, from: usize) -> (result: AppResult<
    Option<EntryPointRva>,
>)
    ensures
        match (entry_point_of(argument_views(args@), from as int), result) {
            (Ok(None), Ok(None)) => true,
            (Ok(Some(expected)), Ok(Some(found))) => found@ == expected,
            (Err(message), Err(error)) => error@ == message,
            _ => false,
        },
{
    let ghost views = argument_views(args@);
    if from >= args.len() {
        return Ok(None);
    }
    assert(views[from as int] == args@[from as int]@);
    let option: &String = &args[from].text;
    if !is_text(option, "-e") && !is_text(option, "--entry-point") {
        return Err(AppError::new(joined("unknown option: ", option.as_str())));
    }
    if args.len() - from < 2 {
        return Err(AppError::fixed("--entry-point needs an RVA"));
    }
    if args.len() - from > 2 {
        return Err(AppError::fixed("too many arguments"));
    }
    assert(views[from + 1] == args@[from + 1]@);
    let value: &Argument = &args[from + 1];
    if !value.valid {
        return Err(AppError::fixed("entry-point RVA must use valid text"));
    }
    match parse_u32(value.text.as_str()) {
        None => Err(AppError::new(joined("invalid entry-point RVA: ", value.text.as_str()))),
        Some(number) => match EntryPointRva::new(number) {
            Some(rva) => Ok(Some(rva)),
            None => Err(AppError::fixed("entry-point RVA must be greater than zero")),
        },
    }
}

/// The command that an option with its value gives.
pub open spec fn command_of(option: ArgumentView, value: ArgumentView) -> Result<
    CommandView,
    Seq<char>,
> {
    if option.text == "-p"@ {
        match pid_of(value) {
            Ok(pid) => Ok(CommandView::Pid(pid)),
            Err(message) => Err(message),
        }
    } else if option.text == "-w"@ {
        match watch_name_of(value) {
            Ok(name) => Ok(CommandView::Watch(name)),
            Err(message) => Err(message),
        }
    } else {
        Err(unknown_option(option.text))
    }
}

/// The option asks for help.
pub open spec fn asks_for_help(option: Seq<char>) -> bool {
    option == "-h"@ || option == "--help"@
}

/// What the user asks for; `None` is help. The first argument is the program.
pub open spec fn request_of(args: Seq<ArgumentView>) -> Result<Option<RequestView>, Seq<char>> {
    if args.len() < 2 {
        Err("missing -p, -w, or -h"@)
    } else if asks_for_help(args[1].text) {
        if args.len() > 2 {
            Err("help does not take more arguments"@)
        } else {
            Ok(None)
        }
    } else if args.len() < 3 {
        Err("this option needs a value"@)
    } else {
        match command_of(args[1], args[2]) {
            Err(message) => Err(message),
            Ok(command) => match entry_point_of(args, 3) {
                Err(message) => Err(message),
                Ok(entry_point) => Ok(Some(RequestView { command, entry_point })),
            },
        }
    }
}

fn parse_command(option: &Argument, value: &Argument) -> (command: AppResult<Command>)
    ensures
        error::agrees(command, command_of(option@, value@)),
{
    if is_text(&option.text, "-p") {
        let pid: ProcessId = parse_pid(value)?;
        Ok(Command::Pid(pid))
    } else if is_text(&option.text, "-w") {
        let name: String = parse_watch_name(value)?;
        Ok(Command::Watch(name))
    } else {
        Err(AppError::new(joined("unknown option: ", option.text.as_str())))
    }
}

/// What the user asks for; `None` is help. The first argument is the program.
pub fn parse(args: &Vec<Argument>) -> (request: AppResult<Option<Request>>)
    ensures
        match (request_of(argument_views(args@)), request) {
            (Ok(None), Ok(None)) => true,
            (Ok(Some(expected)), Ok(Some(found))) => found@ == expected,
            (Err(message), Err(error)) => error@ == message,
            _ => false,
        },
{
    let ghost views = argument_views(args@);
    if args.len() < 2 {
        return Err(AppError::fixed("missing -p, -w, or -h"));
    }
    assert(views[1] == args@[1]@);
    let option: &Argument = &args[1];
    if is_text(&option.text, "-h") || is_text(&option.text, "--help") {
        if args.len() > 2 {
            return Err(AppError::fixed("help does not take more arguments"));
        }
        return Ok(None);
    }
    if args.len() < 3 {
        return Err(AppError::fixed("this option needs a value"));
    }
    assert(views[2] == args@[2]@);
    let command: Command = parse_command(option, &args[2])?;
    let entry_point: Option<EntryPointRva> = parse_entry_point_option(args, 3)?;
    Ok(Some(Request { command, entry_point }))
}

/// The argument with this text.
pub open spec fn text_argument(string: Seq<char>) -> ArgumentView {
    ArgumentView { text: string, valid: true }
}

/// A number means the same in decimal and, behind `0x` or `0X`, in hexadecimal.
pub proof fn decimal_and_hex_agree(value: u32)
    ensures
        number_of(text::decimal(value as nat)) == Some(value as nat),
        number_of("0x"@ + text::hex(value as nat)) == Some(value as nat),
        number_of("0X"@ + text::hex(value as nat)) == Some(value as nat),
{
    text::decimal_reads_back(value as nat, u32::MAX as nat);
    text::hex_reads_back(value as nat, u32::MAX as nat);
    reveal_strlit("0x");
    reveal_strlit("0X");
    let decimal = text::decimal(value as nat);
    let digits = text::hex(value as nat);
    assert(("0x"@ + digits).skip(2) =~= digits);
    assert(("0X"@ + digits).skip(2) =~= digits);
    assert("0x"@.is_prefix_of("0x"@ + digits)) by {
        assert(("0x"@ + digits).subrange(0, 2) =~= "0x"@);
    }
    assert("0X"@.is_prefix_of("0X"@ + digits)) by {
        assert(("0X"@ + digits).subrange(0, 2) =~= "0X"@);
    }
    text::decimal_holds_digits(value as nat);
    if "0x"@.is_prefix_of(decimal) {
        assert("0x"@[1] == decimal[1]);
    }
    if "0X"@.is_prefix_of(decimal) {
        assert("0X"@[1] == decimal[1]);
    }
}

/// A PID can be given in decimal and in hexadecimal, for the same request.
pub proof fn pids_in_both_bases(program: ArgumentView, pid: u32)
    requires
        pid != 0,
    ensures
        request_of(
            seq![program, text_argument("-p"@), text_argument(text::decimal(pid as nat))],
        ) == Ok::<Option<RequestView>, Seq<char>>(
            Some(RequestView { command: CommandView::Pid(pid), entry_point: None }),
        ),
        request_of(
            seq![program, text_argument("-p"@), text_argument("0x"@ + text::hex(pid as nat))],
        ) == Ok::<Option<RequestView>, Seq<char>>(
            Some(RequestView { command: CommandView::Pid(pid), entry_point: None }),
        ),
{
    decimal_and_hex_agree(pid);
    reveal_strlit("-p");
    reveal_strlit("-h");
    reveal_strlit("--help");
    assert("-p"@[1] != "-h"@[1]);
}

/// Help is help only without more arguments.
pub proof fn help_stands_alone(args: Seq<ArgumentView>)
    requires
        args.len() >= 2,
        asks_for_help(args[1].text),
    ensures
        request_of(args) is Ok <==> args.len() == 2,
        args.len() == 2 ==> request_of(args)->Ok_0 is None,
{
}

/// No request watches for a path, or for a process without a name.
pub proof fn watched_names_are_file_names(args: Seq<ArgumentView>)
    requires
        request_of(args) is Ok,
        request_of(args)->Ok_0 is Some,
        request_of(args)->Ok_0->0.command is Watch,
    ensures
        ({
            let name = request_of(args)->Ok_0->0.command->Watch_0;
            name.len() > 0 && !holds_separator(name)
        }),
{
}

/// No request has zero for a PID or for an entry point.
pub proof fn requests_hold_no_zero(args: Seq<ArgumentView>)
    requires
        request_of(args) is Ok,
        request_of(args)->Ok_0 is Some,
    ensures
        request_of(args)->Ok_0->0.command is Pid ==> request_of(args)->Ok_0->0.command->Pid_0 != 0,
        request_of(args)->Ok_0->0.entry_point is Some ==> request_of(
            args,
        )->Ok_0->0.entry_point->0 != 0,
{
}

} // verus!
