//! The command line: what the program is asked to do, and what it tells of the
//! outcome.

use vstd::prelude::*;
use vstd::string::{StrSliceExecFns, StringExecFns};
use vstd::utf8::{decode_utf8, encode_utf8, valid_utf8};

use crate::kallsyms::{white_space, words};
use crate::loader::Outcome;
use crate::text::{
    chars_of, decimal, decimal_text, lemma_fields_append, text_from_utf8, text_from_utf8_lossy,
    texts, utf8_lossy, utf8_text,
};

verus! {

/// How the program ends.
#[derive(Debug)]
pub struct Exit {
    /// Its exit code.
    pub code: i32,
    /// The lines that it prints.
    pub lines: Vec<String>,
}

/// What the program is asked to load.
#[derive(Debug)]
pub struct Request {
    /// The name of the program, as its messages begin with it.
    pub program: String,
    /// The module, as the command line names it.
    pub argument: String,
    /// The path of the module.
    pub path: String,
    /// The module's parameters.
    pub params: String,
}

/// The last component of a path.
pub open spec fn file_name(path: Seq<char>) -> Seq<char>
    decreases path.len(),
{
    if path.len() == 0 || path.last() == '/' {
        Seq::empty()
    } else {
        file_name(path.drop_last()).push(path.last())
    }
}

/// The path that a command line argument names: a dash is the standard input.
pub open spec fn named_path(argument: Seq<char>) -> Seq<char> {
    if argument == "-"@ {
        "/dev/stdin"@
    } else {
        argument
    }
}

/// What an argument adds to the parameters: nothing, if it is no text.
pub open spec fn param_text(argument: Seq<u8>) -> Seq<char> {
    match utf8_text(argument) {
        Some(text) => text,
        None => Seq::empty(),
    }
}

/// Some arguments as the parameters of a module: one text, in which a space sets an
/// argument off from what stands before it, if anything does.
pub open spec fn joined(arguments: Seq<Seq<u8>>) -> Seq<char>
    decreases arguments.len(),
{
    if arguments.len() == 0 {
        Seq::empty()
    } else {
        let front = joined(arguments.drop_last());
        if front.len() == 0 {
            param_text(arguments.last())
        } else {
            front + " "@ + param_text(arguments.last())
        }
    }
}

/// A command line, as the bytes of its arguments.
pub open spec fn contents(arguments: Seq<Vec<u8>>) -> Seq<Seq<u8>> {
    arguments.map_values(|a: Vec<u8>| a@)
}

/// An exit with the given code that prints the given lines.
pub open spec fn exits(exit: Exit, code: i32, lines: Seq<Seq<char>>) -> bool {
    &&& exit.code == code
    &&& texts(exit.lines@) == lines
}

/// A message of the program about an error.
pub open spec fn error_line(program: Seq<char>, message: Seq<char>) -> Seq<char> {
    program + ": ERROR: "@ + message
}

/// How to use the program.
pub open spec fn usage_line(program: Seq<char>, invocation: Seq<char>) -> Seq<char> {
    program + ": Usage: '"@ + invocation + " path/to/module.ko [params]'"@
}

/// What becomes of a command line of the user `uid`.
pub open spec fn understood(
    uid: u32,
    arguments: Seq<Seq<u8>>,
    result: Result<Request, Exit>,
) -> bool {
    let invocation = param_text(arguments[0]);
    let program = file_name(invocation);
    if uid != 0 {
        result matches Err(exit) && exits(
            exit,
            1,
            seq![error_line(program, "Insufficient permission. Please run as root."@)],
        )
    } else if arguments.len() < 2 {
        result matches Err(exit) && exits(
            exit,
            2,
            seq![error_line(program, "Invalid arguments."@), usage_line(program, invocation)],
        )
    } else {
        match utf8_text(arguments[1]) {
            None => result matches Err(exit) && exits(
                exit,
                2,
                seq![
                    error_line(program, "Invalid argument '"@ + utf8_lossy(arguments[1]) + "'."@),
                ],
            ),
            Some(argument) => result matches Ok(request) && {
                &&& request.program@ == program
                &&& request.argument@ == argument
                &&& request.path@ == named_path(argument)
                &&& request.params@ == joined(arguments.skip(2))
            },
        }
    }
}

/// The last component of a path.
fn file_name_of(path: &str) -> (name: String)
    ensures
        name@ == file_name(path@),
{
    let chars = chars_of(path);
    let len: usize = chars.len();
    let mut start: usize = len;
    assert(path@.take(len as int) =~= path@);
    assert(path@.subrange(len as int, len as int) =~= Seq::<char>::empty());
    assert(file_name(path@) =~= file_name(path@) + Seq::<char>::empty());
    while start > 0 && chars[start - 1] != '/'
        invariant
            chars@ == path@,
            len == path@.len(),
            start <= len,
            file_name(path@) == file_name(path@.take(start as int)) + path@.subrange(
                start as int,
                len as int,
            ),
        decreases start,
    {
        proof {
            let front = path@.take(start as int);
            assert(front.drop_last() =~= path@.take(start - 1));
            assert(file_name(front) + path@.subrange(start as int, len as int) =~= file_name(
                front.drop_last(),
            ) + path@.subrange(start - 1, len as int));
        }
        start = start - 1;
    }
    assert(file_name(path@.take(start as int)) =~= Seq::<char>::empty());
    assert(file_name(path@) =~= path@.subrange(start as int, len as int));
    path.substring_char(start, len).to_owned()
}

fn print_error(program: &str, message: &str) -> (line: String)
    ensures
        line@ == error_line(program@, message@),
{
    let mut line = program.to_owned();
    line.append(": ERROR: ");
    line.append(message);
    line
}

fn exit_with(code: i32, line: String) -> (exit: Exit)
    ensures
        exits(exit, code, seq![line@]),
{
    let mut lines: Vec<String> = Vec::new();
    lines.push(line);
    assert(texts(lines@) =~= seq![line@]);
    Exit { code, lines }
}

/// Joins the arguments from number `from` on to the parameters of a module.
fn join_arguments(arguments: &Vec<Vec<u8>>, from: usize) -> (params: String)
    requires
        from <= arguments@.len(),
    ensures
        params@ == joined(contents(arguments@).skip(from as int)),
{
    let ghost all = contents(arguments@).skip(from as int);
    let mut params = String::new();
    let mut i: usize = from;
    assert(all.take(0) =~= Seq::<Seq<u8>>::empty());
    while i < arguments.len()
        invariant
            all == contents(arguments@).skip(from as int),
            from <= i <= arguments@.len(),
            params@ == joined(all.take(i - from)),
        decreases arguments@.len() - i,
    {
        let ghost longer = all.take(i - from + 1);
        assert(longer.drop_last() =~= all.take(i - from));
        assert(longer.last() == arguments@[i as int]@);
        let argument = match text_from_utf8(arguments[i].as_slice()) {
            Some(text) => text,
            None => String::new(),
        };
        if !params.as_str().is_empty() {
            params.append(" ");
        }
        params.append(argument.as_str());
        assert(params@ =~= joined(longer));
        i = i + 1;
    }
    assert(all.take(i - from) =~= all);
    params
}

/// Reads a command line of the user `uid`. Its first argument is the name by which
/// the program was called.
pub fn read_command_line(uid: u32, arguments: &Vec<Vec<u8>>) -> (result: Result<Request, Exit>)
    requires
        arguments@.len() > 0,
        utf8_text(arguments@[0]@) is Some,
    ensures
        understood(uid, contents(arguments@), result),
        result is Ok <==> uid == 0 && arguments@.len() >= 2 && valid_utf8(arguments@[1]@),
        result matches Ok(request) ==> {
            &&& request.argument@ == decode_utf8(arguments@[1]@)
            &&& request.path@ == if decode_utf8(arguments@[1]@) == seq!['-'] {
                "/dev/stdin"@
            } else {
                decode_utf8(arguments@[1]@)
            }
        },
{
    let ghost all = contents(arguments@);
    proof {
        reveal_strlit("-");
        assert("-"@ =~= seq!['-']);
    }
    assert(all[0] == arguments@[0]@);
    let invocation = match text_from_utf8(arguments[0].as_slice()) {
        Some(text) => text,
        None => String::new(),
    };
    let program = file_name_of(invocation.as_str());
    if uid != 0 {
        let line = print_error(
            program.as_str(),
            "Insufficient permission. Please run as root.",
        );
        return Err(exit_with(1, line));
    }
    if arguments.len() < 2 {
        let mut exit = exit_with(2, print_error(program.as_str(), "Invalid arguments."));
        let ghost before = exit.lines@;
        let mut usage = program;
        usage.append(": Usage: '");
        usage.append(invocation.as_str());
        usage.append(" path/to/module.ko [params]'");
        exit.lines.push(usage);
        assert(texts(exit.lines@) =~= texts(before).push(usage@));
        assert(texts(exit.lines@) =~= seq![
            error_line(file_name(invocation@), "Invalid arguments."@),
            usage_line(file_name(invocation@), invocation@),
        ]);
        return Err(exit);
    }
    assert(all[1] == arguments@[1]@);
    let argument = match text_from_utf8(arguments[1].as_slice()) {
        None => {
            let mut message = "Invalid argument '".to_owned();
            message.append(text_from_utf8_lossy(arguments[1].as_slice()).as_str());
            message.append("'.");
            return Err(exit_with(2, print_error(program.as_str(), message.as_str())));
        },
        Some(argument) => argument,
    };
    let path = if argument == "-".to_owned() {
        "/dev/stdin".to_owned()
    } else {
        argument.clone()
    };
    let params = join_arguments(arguments, 2);
    Ok(Request { program, argument, path, params })
}

/// What the program says of a load. Where the module that was loaded is one whose
/// version can be told, `version` is that version, or zero if none was found.
pub open spec fn reported(
    program: Seq<char>,
    argument: Seq<char>,
    outcome: Outcome,
    version: Option<u32>,
    exit: Exit,
) -> bool {
    match outcome {
        Ok(_) => match version {
            None => exits(exit, 0, Seq::empty()),
            Some(number) => if number == 0 {
                exits(exit, 3, seq![error_line(program, "Invalid KernelSU version."@)])
            } else {
                exits(
                    exit,
                    0,
                    seq![program + ": KernelSU Version: "@ + decimal(number as nat) + "."@],
                )
            },
        },
        Err(error) => exits(
            exit,
            (4 * error.0.number()) as i32,
            match error.0.summary() {
                None => Seq::empty(),
                Some(summary) => seq![
                    error_line(program, argument + ": "@ + summary + ": "@ + error.1@),
                ],
            },
        ),
    }
}

/// Reports the outcome of a load.
pub fn report(program: &str, argument: &str, outcome: &Outcome, version: Option<u32>) -> (exit:
    Exit)
    ensures
        reported(program@, argument@, *outcome, version, exit),
        exit.code == 0 <==> outcome is Ok && version != Some(0u32),
{
    match outcome {
        Ok(_) => match version {
            None => {
                let lines: Vec<String> = Vec::new();
                assert(texts(lines@) =~= Seq::<Seq<char>>::empty());
                Exit { code: 0, lines }
            },
            Some(number) => {
                if number == 0 {
                    return exit_with(3, print_error(program, "Invalid KernelSU version."));
                }
                let mut line = program.to_owned();
                line.append(": KernelSU Version: ");
                line.append(decimal_text(number as usize).as_str());
                line.append(".");
                exit_with(0, line)
            },
        },
        Err(error) => {
            let code: i32 = error.0.exit_code();
            match error.0.message() {
                None => {
                    let lines: Vec<String> = Vec::new();
                    assert(texts(lines@) =~= Seq::<Seq<char>>::empty());
                    Exit { code, lines }
                },
                Some(summary) => {
                    let mut message = argument.to_owned();
                    message.append(": ");
                    message.append(summary);
                    message.append(": ");
                    message.append(error.1.as_str());
                    exit_with(code, print_error(program, message.as_str()))
                },
            }
        },
    }
}

/// The words of some arguments, in order.
pub open spec fn argument_words(arguments: Seq<Seq<u8>>) -> Seq<Seq<char>>
    decreases arguments.len(),
{
    if arguments.len() == 0 {
        Seq::empty()
    } else {
        argument_words(arguments.drop_last()) + words(param_text(arguments.last()))
    }
}

/// Joining arguments keeps their words apart: the parameters of a module have the
/// words of the arguments, in order, and no others.
pub proof fn law_params_keep_words(arguments: Seq<Seq<u8>>)
    ensures
        words(joined(arguments)) == argument_words(arguments),
    decreases arguments.len(),
{
    if arguments.len() > 0 {
        law_params_keep_words(arguments.drop_last());
        let front = joined(arguments.drop_last());
        let last = param_text(arguments.last());
        reveal_strlit(" ");
        assert(" "@ =~= seq![' ']);
        if front.len() == 0 {
            assert(front =~= Seq::empty());
            assert(argument_words(arguments) =~= words(last));
        } else {
            lemma_fields_append(front, ' ', last, white_space());
        }
    }
}

/// Whether `name` is what stands behind the last slash of `path`, or all of it where it
/// holds none.
pub open spec fn is_last_component(name: Seq<char>, path: Seq<char>) -> bool {
    let start = path.len() - name.len();
    &&& start >= 0
    &&& forall|i: int| 0 <= i < name.len() ==> #[trigger] name[i] != '/' && name[i] == path[start
        + i]
    &&& start > 0 ==> path[start - 1] == '/'
}

/// The last component of a path is what stands behind its last slash.
pub proof fn law_file_name_is_last_component(path: Seq<char>)
    ensures
        is_last_component(file_name(path), path),
    decreases path.len(),
{
    if path.len() > 0 && path.last() != '/' {
        law_file_name_is_last_component(path.drop_last());
    }
}

/// A command line is a request if and only if it is one of the superuser that names a
/// module by a text. The module is then the one named, letter by letter, unless it is a
/// dash, which stands for the standard input; the program goes by the last component of
/// its own name; and the parameters are all that follows.
pub proof fn law_request_is_as_given(
    uid: u32,
    arguments: Seq<Seq<u8>>,
    result: Result<Request, Exit>,
)
    requires
        arguments.len() > 0,
        valid_utf8(arguments[0]),
        understood(uid, arguments, result),
    ensures
        result is Ok <==> uid == 0 && arguments.len() >= 2 && valid_utf8(arguments[1]),
        result matches Ok(request) ==> {
            &&& encode_utf8(request.argument@) == arguments[1]
            &&& request.argument@ == decode_utf8(arguments[1])
            &&& request.argument@ == seq!['-'] ==> request.path@ == "/dev/stdin"@
            &&& request.argument@ != seq!['-'] ==> request.path@ == decode_utf8(arguments[1])
                && encode_utf8(request.path@) == arguments[1]
            &&& is_last_component(request.program@, decode_utf8(arguments[0]))
            &&& request.params@ == joined(arguments.subrange(2, arguments.len() as int))
        },
{
    reveal_strlit("-");
    assert("-"@ =~= seq!['-']);
    law_file_name_is_last_component(decode_utf8(arguments[0]));
    if arguments.len() >= 2 {
        assert(arguments.skip(2) =~= arguments.subrange(2, arguments.len() as int));
        if valid_utf8(arguments[1]) {
            vstd::utf8::decode_utf8_encode_utf8(arguments[1]);
        }
    }
}

/// Parameters are nothing where there are no arguments. A first argument that is empty,
/// or no text, does not count. Any other begins the parameters, and each argument behind
/// it follows, set off by one space, with nothing for one that is no text.
pub proof fn law_params_are_joined(arguments: Seq<Seq<u8>>)
    ensures
        ({
            let text = |a: Seq<u8>|
                if valid_utf8(a) {
                    decode_utf8(a)
                } else {
                    Seq::<char>::empty()
                };
            &&& arguments.len() == 0 ==> joined(arguments) == Seq::<char>::empty()
            &&& arguments.len() > 0 && text(arguments[0]).len() == 0 ==> joined(arguments)
                == joined(arguments.drop_first())
            &&& arguments.len() > 0 && text(arguments[0]).len() > 0 ==> joined(arguments) == text(
                arguments[0],
            ) + arguments.drop_first().map_values(|a: Seq<u8>| seq![' '] + text(a)).flatten()
        }),
    decreases arguments.len(),
{
    let text = |a: Seq<u8>|
        if valid_utf8(a) {
            decode_utf8(a)
        } else {
            Seq::<char>::empty()
        };
    let spaced = |a: Seq<u8>| seq![' '] + text(a);
    reveal_strlit(" ");
    assert(" "@ =~= seq![' ']);
    if arguments.len() == 1 {
        let none = Seq::<Seq<u8>>::empty();
        assert(arguments.drop_last() =~= none);
        assert(arguments.drop_first() =~= none);
        assert(none.map_values(spaced).flatten() =~= Seq::empty());
        assert(joined(none) =~= Seq::empty());
        assert(joined(arguments) == param_text(arguments.last()));
        assert(text(arguments[0]) + none.map_values(spaced).flatten() =~= text(arguments[0]));
        if text(arguments[0]).len() == 0 {
            assert(joined(arguments) =~= Seq::empty());
        }
    } else if arguments.len() > 1 {
        let front = arguments.drop_last();
        let last = arguments.last();
        law_params_are_joined(front);
        assert(front[0] == arguments[0]);
        assert(front.drop_first() =~= arguments.drop_first().drop_last());
        assert(arguments.drop_first().last() == last);
        if text(arguments[0]).len() > 0 {
            let middle = front.drop_first().map_values(spaced);
            assert(arguments.drop_first().map_values(spaced) =~= middle.push(spaced(last)));
            middle.lemma_flatten_push(spaced(last));
            assert(joined(front).len() > 0);
            assert(joined(arguments) =~= text(arguments[0]) + (middle.flatten() + spaced(last)));
        }
    }
}

/// A command line that is refused is answered by its exit code and by the lines that go
/// with it, in full.
pub proof fn law_refusal_is_told(uid: u32, arguments: Seq<Seq<u8>>, exit: Exit)
    requires
        arguments.len() > 0,
        valid_utf8(arguments[0]),
        understood(uid, arguments, Err(exit)),
    ensures
        ({
            let invocation = decode_utf8(arguments[0]);
            let name = file_name(invocation);
            if uid != 0 {
                &&& exit.code == 1
                &&& exit.lines@.len() == 1
                &&& exit.lines@[0]@ == name + ": ERROR: "@
                    + "Insufficient permission. Please run as root."@
            } else if arguments.len() == 1 {
                &&& exit.code == 2
                &&& exit.lines@.len() == 2
                &&& exit.lines@[0]@ == name + ": ERROR: "@ + "Invalid arguments."@
                &&& exit.lines@[1]@ == name + ": Usage: '"@ + invocation
                    + " path/to/module.ko [params]'"@
            } else {
                &&& !valid_utf8(arguments[1])
                &&& exit.code == 2
                &&& exit.lines@.len() == 1
                &&& exit.lines@[0]@ == name + ": ERROR: "@ + ("Invalid argument '"@ + utf8_lossy(
                    arguments[1],
                ) + "'."@)
            }
        }),
{
    assert(texts(exit.lines@).len() == exit.lines@.len());
    assert(texts(exit.lines@)[0] == exit.lines@[0]@);
    if uid == 0 && arguments.len() == 1 {
        assert(texts(exit.lines@)[1] == exit.lines@[1]@);
    }
}

/// A load is reported by its exit code and by the line that goes with it, in full: an
/// error with its cause, whatever that says, and a version by its number.
pub proof fn law_outcome_is_told(
    program: Seq<char>,
    argument: Seq<char>,
    outcome: Outcome,
    version: Option<u32>,
    exit: Exit,
)
    requires
        reported(program, argument, outcome, version, exit),
    ensures
        match outcome {
            Ok(_) => match version {
                None => exit.code == 0 && exit.lines@.len() == 0,
                Some(number) => {
                    &&& exit.lines@.len() == 1
                    &&& number == 0 ==> exit.code == 3 && exit.lines@[0]@ == program + ": ERROR: "@
                        + "Invalid KernelSU version."@
                    &&& number > 0 ==> exit.code == 0 && exit.lines@[0]@ == program
                        + ": KernelSU Version: "@ + decimal(number as nat) + "."@
                },
            },
            Err(error) => {
                &&& exit.code == error.0.number() + error.0.number() + error.0.number()
                    + error.0.number()
                &&& match error.0.summary() {
                    None => exit.lines@.len() == 0,
                    Some(summary) => exit.lines@.len() == 1 && exit.lines@[0]@ == program
                        + ": ERROR: "@ + (argument + ": "@ + summary + ": "@ + error.1@),
                }
            },
        },
{
    assert(texts(exit.lines@).len() == exit.lines@.len());
    if exit.lines@.len() == 1 {
        assert(texts(exit.lines@)[0] == exit.lines@[0]@);
    }
}

/// The contents of a command line are the bytes of each argument, whole and in order.
pub proof fn law_arguments_are_whole(arguments: Seq<Vec<u8>>)
    ensures
        contents(arguments).len() == arguments.len(),
        forall|i: int| 0 <= i < arguments.len() ==> #[trigger] contents(arguments)[i]
            == arguments[i]@,
{
}

} // verus!
