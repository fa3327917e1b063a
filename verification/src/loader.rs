//! The course of a load. The program performs the actions asked for here, one at a
//! time, and reports what came of each.

use vstd::pervasive::unreached;
use vstd::prelude::*;
use vstd::std_specs::iter::IteratorSpec;
use vstd::string::StringExecFns;
use vstd::utf8::encode_utf8;

use crate::elf::{
    elf_image, holds_symbols, is_faithful, parse_elf, parse_view, symbol_offset, ElfImage,
    ElfView,
};
use crate::error::ErrorCode;
use crate::kallsyms::{
    begins_with_address, kernel_symbols, unreadable, KptrOwnedIter, SymbolVisitor,
};
use crate::kmsg::{extract_required_vermagic, required_vermagic};
use crate::modinfo::{entries, is_value, is_vermagic, vermagic_entry};
use crate::symbols::{
    bind_all, law_linking_binds_undefined_symbols, law_missing_symbols_are_unlisted,
    law_nothing_to_link, law_symbol_is_linked, undefined_symbols, Resolver,
};
use crate::text::{chars_of, texts};
use crate::vermagic::{
    law_revised_module_names_vermagic, located, replace_module_vermagic, revised_module,
    section_at, SH_SIZE,
};
use crate::words::word_value;

verus! {

/// How far a load has come.
pub enum LoadState {
    /// The module is being read.
    Reading,
    /// The kernel's symbols are being read, to link the module.
    Linking(Resolver),
    /// The kernel log is being opened.
    OpeningLog { buffer: Vec<u8> },
    /// The kernel is given the module. With `log`, the kernel log is open.
    Loading { buffer: Vec<u8>, log: bool },
    /// The kernel has rejected the module, and its log is being read.
    Diagnosing { buffer: Vec<u8>, error: String },
    /// The kernel asks for the given vermagic, and the module is about to get it.
    Revising { buffer: Vec<u8>, vermagic: String },
    /// The kernel is given the module with another vermagic.
    Retrying { buffer: Vec<u8> },
    /// The load is over.
    Finished,
}

/// What came of an action.
pub enum LoadEvent {
    /// The module, or why it cannot be read.
    File(Result<Vec<u8>, String>),
    /// Whether the kernel log is open.
    Log(bool),
    /// Why the kernel rejects the module, if it does.
    Init(Result<(), String>),
    /// What the kernel has logged, or why its log cannot be read.
    Records(Result<String, String>),
    /// The vermagic that the kernel asks for has been announced.
    Announced,
}

/// How a load ended.
pub type Outcome = Result<(), (ErrorCode, String)>;

/// What is to be done next.
pub enum LoadAction {
    /// Read the kernel's symbols, and link the module.
    ReadKallsyms,
    /// Open the kernel log. The symbols that are missing cannot be found in the
    /// kernel.
    OpenLog { missing: Vec<String> },
    /// Give the module to the kernel.
    Init,
    /// Read what the kernel has logged since its log was opened.
    ReadLog,
    /// Announce the vermagic that the kernel asks for.
    Announce { vermagic: String },
    /// Give the module to the kernel, with the vermagic that the kernel asked for.
    Retry { vermagic: String },
    /// Nothing more: the load is over.
    Finish(Outcome),
}

impl LoadState {
    /// The module, as it is to be given to the kernel.
    pub open spec fn module(self) -> Option<Seq<u8>> {
        match self {
            LoadState::Loading { buffer, .. } => Some(buffer@),
            LoadState::Retrying { buffer } => Some(buffer@),
            _ => None,
        }
    }

    /// What holds of a load at every time.
    pub open spec fn wf(self) -> bool {
        self matches LoadState::Linking(resolver) ==> resolver.wf()
    }

    /// The number of steps that a load has behind it at most.
    pub open spec fn stage(self) -> nat {
        match self {
            LoadState::Reading => 0,
            LoadState::Linking(_) => 1,
            LoadState::OpeningLog { .. } => 2,
            LoadState::Loading { .. } => 3,
            LoadState::Diagnosing { .. } => 4,
            LoadState::Revising { .. } => 5,
            LoadState::Retrying { .. } => 6,
            LoadState::Finished => 7,
        }
    }

    /// Whether `event` is what is being waited for.
    pub open spec fn expects(self, event: LoadEvent) -> bool {
        match self {
            LoadState::Reading => event is File,
            LoadState::Linking(_) => false,
            LoadState::OpeningLog { .. } => event is Log,
            LoadState::Loading { .. } => event is Init,
            LoadState::Diagnosing { .. } => event is Records,
            LoadState::Revising { .. } => event is Announced,
            LoadState::Retrying { .. } => event is Init,
            LoadState::Finished => false,
        }
    }
}

/// A load that ended with the given error, described by the given text.
pub open spec fn failed(
    next: LoadState,
    action: LoadAction,
    code: ErrorCode,
    text: Seq<char>,
) -> bool {
    &&& next is Finished
    &&& action matches LoadAction::Finish(Err(error)) && error.0 == code && error.1@ == text
}

/// A load for which the kernel log is to be opened next.
pub open spec fn linked(next: LoadState, action: LoadAction, module: Seq<u8>) -> bool {
    &&& next matches LoadState::OpeningLog { buffer } && buffer@ == module
    &&& action is OpenLog
}

/// How a load goes on once the module has been read and parsed.
pub open spec fn parsed(
    module: Seq<u8>,
    image: Result<ElfView, Seq<char>>,
    next: LoadState,
    action: LoadAction,
) -> bool {
    match image {
        Err(message) => failed(next, action, ErrorCode::ReadElfFailed, message),
        Ok(view) => if undefined_symbols(view).is_empty() {
            &&& linked(next, action, module)
            &&& action->missing@ == Seq::<String>::empty()
        } else {
            &&& next matches LoadState::Linking(resolver) && resolver.starts(module, view)
            &&& action is ReadKallsyms
        },
    }
}

/// A load that ended with the module loaded.
pub open spec fn succeeded(next: LoadState, action: LoadAction) -> bool {
    &&& next is Finished
    &&& action matches LoadAction::Finish(Ok(_))
}

/// A load that ended because the kernel rejects the module with the given error, and
/// not for its vermagic as far as can be told.
pub open spec fn rejected(next: LoadState, action: LoadAction, error: Seq<char>) -> bool {
    failed(
        next,
        action,
        ErrorCode::InitModuleFailed,
        "init_module failed without vermagic mismatch: "@ + error,
    )
}

/// How a load goes on once the kernel has rejected the module with the given error
/// and its log has been read.
pub open spec fn diagnosed(
    module: Seq<u8>,
    error: Seq<char>,
    log: Seq<char>,
    next: LoadState,
    action: LoadAction,
) -> bool {
    match required_vermagic(log) {
        None => rejected(next, action, error),
        Some(required) => {
            &&& next matches LoadState::Revising { buffer, vermagic } && buffer@ == module
                && vermagic@ == required
            &&& action matches LoadAction::Announce { vermagic } && vermagic@ == required
        },
    }
}

/// How a load goes on once the module is to get the vermagic that the kernel asks
/// for.
pub open spec fn revised(
    module: Seq<u8>,
    required: Seq<char>,
    next: LoadState,
    action: LoadAction,
) -> bool {
    match elf_image(module, usize::BITS) {
        Err(message) => failed(next, action, ErrorCode::ReplaceVermagicFailed, message),
        Ok(image) => {
            let (revision, outcome) = revised_module(module, image, encode_utf8(required));
            match outcome {
                Err(layout) => failed(
                    next,
                    action,
                    ErrorCode::ReplaceVermagicFailed,
                    layout.text(),
                ),
                Ok(()) => {
                    &&& next matches LoadState::Retrying { buffer } && buffer@ == revision
                    &&& action matches LoadAction::Retry { vermagic } && vermagic@ == required
                },
            }
        },
    }
}

/// How a load goes on after `event`.
pub open spec fn goes_on(
    state: LoadState,
    event: LoadEvent,
    next: LoadState,
    action: LoadAction,
) -> bool {
    match (state, event) {
        (LoadState::Reading, LoadEvent::File(Err(message))) => failed(
            next,
            action,
            ErrorCode::ReadFileFailed,
            message@,
        ),
        (LoadState::Reading, LoadEvent::File(Ok(module))) => parsed(
            module@,
            elf_image(module@, usize::BITS),
            next,
            action,
        ),
        (LoadState::OpeningLog { buffer }, LoadEvent::Log(open)) => {
            &&& next matches LoadState::Loading { buffer: module, log } && module@ == buffer@
                && log == open
            &&& action is Init
        },
        (LoadState::Loading { .. }, LoadEvent::Init(Ok(_))) => succeeded(next, action),
        (LoadState::Loading { buffer, log }, LoadEvent::Init(Err(message))) => if log {
            &&& next matches LoadState::Diagnosing { buffer: module, error } && module@ == buffer@
                && error@ == message@
            &&& action is ReadLog
        } else {
            rejected(next, action, message@)
        },
        (LoadState::Diagnosing { buffer, error }, LoadEvent::Records(log)) => match log {
            Ok(text) => diagnosed(buffer@, error@, text@, next, action),
            Err(_) => rejected(next, action, error@),
        },
        (LoadState::Revising { buffer, vermagic }, LoadEvent::Announced) => revised(
            buffer@,
            vermagic@,
            next,
            action,
        ),
        (LoadState::Retrying { .. }, LoadEvent::Init(Ok(_))) => succeeded(next, action),
        (LoadState::Retrying { .. }, LoadEvent::Init(Err(message))) => failed(
            next,
            action,
            ErrorCode::InitModuleFailed,
            message@,
        ),
        _ => true,
    }
}

/// Ends a load with an error.
fn fail(code: ErrorCode, message: String) -> (result: (LoadState, LoadAction))
    ensures
        failed(result.0, result.1, code, message@),
{
    (LoadState::Finished, LoadAction::Finish(Err((code, message))))
}

/// Ends a load with the error for which the kernel rejects its module.
fn reject(error: String) -> (result: (LoadState, LoadAction))
    ensures
        rejected(result.0, result.1, error@),
{
    let mut message = "init_module failed without vermagic mismatch: ".to_owned();
    message.append(error.as_str());
    fail(ErrorCode::InitModuleFailed, message)
}

/// Decides how a load goes on once its module has been read and parsed.
pub fn begin_linking(module: Vec<u8>, image: Result<ElfImage, String>) -> (result: (
    LoadState,
    LoadAction,
))
    requires
        image matches Ok(found) ==> symbol_offset(found@, found@.symbols.len() as int)
            <= module@.len(),
    ensures
        result.0.wf(),
        parsed(module@, parse_view(image), result.0, result.1),
{
    match image {
        Err(message) => fail(ErrorCode::ReadElfFailed, message),
        Ok(found) => {
            let resolver = Resolver::new(module, &found);
            if resolver.pending.is_empty() {
                let missing: Vec<String> = Vec::new();
                (
                    LoadState::OpeningLog { buffer: resolver.buffer },
                    LoadAction::OpenLog { missing },
                )
            } else {
                (LoadState::Linking(resolver), LoadAction::ReadKallsyms)
            }
        },
    }
}

/// How a load goes on once its module has been linked against the symbols that `lines`
/// name.
pub open spec fn links(
    resolver: Resolver,
    lines: Seq<String>,
    next: LoadState,
    action: LoadAction,
) -> bool {
    if unreadable(lines) {
        &&& next is Finished
        &&& action matches LoadAction::Finish(Err(error)) && error.0
            == ErrorCode::ParseKallsymsFailed
    } else {
        let (module, left) = bind_all(
            resolver.buffer@,
            resolver.pending@,
            kernel_symbols(lines),
            resolver.is_64,
            resolver.little_endian,
        );
        &&& next matches LoadState::OpeningLog { buffer } && buffer@ == module
        &&& action is OpenLog
        &&& forall|name: Seq<char>| #[trigger]
            texts(action->missing@).contains(name) <==> left.contains_key(name)
    }
}

/// Links the module that a load is about against the kernel's symbols. A symbol table
/// that cannot be read, or of which nothing can be told, is an error.
pub fn link_module<K, I: Iterator<Item = String>>(
    resolver: Resolver,
    kallsyms: Result<KptrOwnedIter<K, I>, String>,
) -> (result: (LoadState, LoadAction))
    requires
        resolver.wf(),
        kallsyms matches Ok(symbols) ==> symbols.lines().obeys_prophetic_iter_laws()
            && symbols.lines().decrease() is Some,
    ensures
        match kallsyms {
            Err(message) => failed(
                result.0,
                result.1,
                ErrorCode::ParseKallsymsFailed,
                message@,
            ),
            Ok(symbols) => if unreadable(symbols.lines().remaining()) {
                failed(
                    result.0,
                    result.1,
                    ErrorCode::ParseKallsymsFailed,
                    "/proc/kallsyms does not begin with an address"@,
                )
            } else {
                let (module, left) = bind_all(
                    resolver.buffer@,
                    resolver.pending@,
                    kernel_symbols(symbols.lines().remaining()),
                    resolver.is_64,
                    resolver.little_endian,
                );
                &&& linked(result.0, result.1, module)
                &&& texts(result.1->missing@).no_duplicates()
                &&& forall|name: Seq<char>| #[trigger]
                    texts(result.1->missing@).contains(name) <==> left.contains_key(name)
            },
        },
        kallsyms matches Ok(symbols) ==> links(
            resolver,
            symbols.lines().remaining(),
            result.0,
            result.1,
        ),
        result.0.wf(),
        result.0.stage() > LoadState::Linking(resolver).stage(),
{
    match kallsyms {
        Err(message) => fail(ErrorCode::ParseKallsymsFailed, message),
        Ok(symbols) => {
            let mut resolver = resolver;
            let mut symbols = symbols;
            let message = "/proc/kallsyms does not begin with an address";
            let first = match symbols.next_line() {
                None => {
                    return fail(ErrorCode::ParseKallsymsFailed, message.to_owned());
                },
                Some(line) => line,
            };
            if !begins_with_address(first.as_str()) {
                return fail(ErrorCode::ParseKallsymsFailed, message.to_owned());
            }
            match resolver.bind_behind(first.as_str(), symbols) {
                Err(message) => fail(ErrorCode::AppendElfFailed, message),
                Ok(()) => {
                    let missing = resolver.missing();
                    (
                        LoadState::OpeningLog { buffer: resolver.buffer },
                        LoadAction::OpenLog { missing },
                    )
                },
            }
        },
    }
}

/// Decides how a load goes on once the kernel has rejected its module.
fn diagnose(module: Vec<u8>, error: String, log: &str) -> (result: (LoadState, LoadAction))
    ensures
        diagnosed(module@, error@, log@, result.0, result.1),
{
    match extract_required_vermagic(log) {
        None => reject(error),
        Some(vermagic) => {
            let announced = vermagic.clone();
            (
                LoadState::Revising { buffer: module, vermagic },
                LoadAction::Announce { vermagic: announced },
            )
        },
    }
}

/// Gives a module the vermagic that the kernel asks for, and decides how the load
/// goes on.
fn revise(module: Vec<u8>, vermagic: String) -> (result: (LoadState, LoadAction))
    ensures
        is_faithful(module@),
        revised(module@, vermagic@, result.0, result.1),
{
    let mut module = module;
    match replace_module_vermagic(&mut module, vermagic.as_str()) {
        Err(cause) => fail(ErrorCode::ReplaceVermagicFailed, cause.message()),
        Ok(()) => (LoadState::Retrying { buffer: module }, LoadAction::Retry { vermagic }),
    }
}

/// Decides how a load goes on after `event`.
pub fn advance(state: LoadState, event: LoadEvent) -> (result: (LoadState, LoadAction))
    requires
        state.expects(event),
    ensures
        goes_on(state, event, result.0, result.1),
        result.0.wf(),
        result.0.stage() > state.stage(),
        succeeded(result.0, result.1) <==> (event matches LoadEvent::Init(Ok(_))),
        state is Reading ==> (event matches LoadEvent::File(Ok(module)) ==> is_faithful(module@)),
        state matches LoadState::Revising { buffer, .. } ==> is_faithful(buffer@),
{
    match (state, event) {
        (LoadState::Reading, LoadEvent::File(Err(message))) => fail(
            ErrorCode::ReadFileFailed,
            message,
        ),
        (LoadState::Reading, LoadEvent::File(Ok(module))) => {
            let image = parse_elf(module.as_slice());
            begin_linking(module, image)
        },
        (LoadState::OpeningLog { buffer }, LoadEvent::Log(open)) => (
            LoadState::Loading { buffer, log: open },
            LoadAction::Init,
        ),
        (LoadState::Loading { buffer: _, log: _ }, LoadEvent::Init(Ok(()))) => (
            LoadState::Finished,
            LoadAction::Finish(Ok(())),
        ),
        (LoadState::Loading { buffer, log }, LoadEvent::Init(Err(message))) => {
            if log {
                (LoadState::Diagnosing { buffer, error: message }, LoadAction::ReadLog)
            } else {
                reject(message)
            }
        },
        (LoadState::Diagnosing { buffer, error }, LoadEvent::Records(log)) => match log {
            Ok(text) => diagnose(buffer, error, text.as_str()),
            Err(_) => reject(error),
        },
        (LoadState::Revising { buffer, vermagic }, LoadEvent::Announced) => revise(
            buffer,
            vermagic,
        ),
        (LoadState::Retrying { buffer: _ }, LoadEvent::Init(Ok(()))) => (
            LoadState::Finished,
            LoadAction::Finish(Ok(())),
        ),
        (LoadState::Retrying { buffer: _ }, LoadEvent::Init(Err(message))) => fail(
            ErrorCode::InitModuleFailed,
            message,
        ),
        _ => unreached(),
    }
}

/// Every event that a load waits for brings it further, whatever the event is.
pub proof fn law_load_moves_on(
    state: LoadState,
    event: LoadEvent,
    next: LoadState,
    action: LoadAction,
)
    ensures
        state.expects(event) && goes_on(state, event, next, action) ==> next.stage()
            > state.stage(),
{
}

/// A load that always moves on gives its module to the kernel at most twice.
pub proof fn law_two_attempts(states: Seq<LoadState>, i: int, j: int, k: int)
    requires
        0 <= i < j < k < states.len(),
        forall|a: int, b: int|
            0 <= a < b < states.len() ==> (#[trigger] states[a]).stage() < (
            #[trigger] states[b]).stage(),
    ensures
        states[i].module() is None || states[j].module() is None || states[k].module() is None,
{
}

/// The module of a second attempt names the vermagic that the kernel asked for, and
/// no other, where its section header stood inside the file.
pub proof fn law_second_attempt_names_vermagic(
    module: Seq<u8>,
    image: ElfView,
    required: Seq<char>,
    buffer: Vec<u8>,
    action: LoadAction,
)
    ensures
        ({
            &&& elf_image(module, usize::BITS) == Ok::<ElfView, Seq<char>>(image)
            &&& revised(module, required, LoadState::Retrying { buffer }, action)
            &&& is_value(encode_utf8(required))
            &&& located(image, module.len())->Ok_0.section_header_offset + SH_SIZE + 8
                <= module.len()
        }) ==> ({
            let location = located(image, module.len())->Ok_0;
            let modinfo = section_at(
                buffer@,
                location.section_header_offset as int,
                location.little_endian,
            );
            entries(modinfo).filter(|e: Seq<u8>| is_vermagic(e)) == seq![
                vermagic_entry(encode_utf8(required)),
            ]
        }),
{
    if elf_image(module, usize::BITS) == Ok::<ElfView, Seq<char>>(image) && revised(
        module,
        required,
        LoadState::Retrying { buffer },
        action,
    ) && is_value(encode_utf8(required)) && located(
        image,
        module.len(),
    )->Ok_0.section_header_offset + SH_SIZE + 8 <= module.len() {
        assert(buffer@.len() == buffer.len());
        law_revised_module_names_vermagic(module, image, encode_utf8(required));
    }
}

/// The parameters that the kernel is given: none where they hold a zero character.
pub open spec fn given_params(params: Option<&str>) -> Seq<char> {
    match params {
        None => Seq::empty(),
        Some(text) => if text@.contains('\0') {
            Seq::empty()
        } else {
            text@
        },
    }
}

/// The parameters that the kernel is given.
pub fn module_params(params: Option<&str>) -> (text: String)
    ensures
        text@ == given_params(params),
{
    match params {
        None => String::new(),
        Some(text) => {
            let chars = chars_of(text);
            let mut i: usize = 0;
            while i < chars.len()
                invariant
                    params == Some(text),
                    chars@ == text@,
                    i <= chars@.len(),
                    forall|k: int| 0 <= k < i ==> chars@[k] != '\0',
                decreases chars@.len() - i,
            {
                if chars[i] == '\0' {
                    assert(text@[i as int] == '\0');
                    return String::new();
                }
                i = i + 1;
            }
            text.to_owned()
        },
    }
}

/// What a load waits for: the module first, then the log, then the kernel, then what the
/// kernel has logged, then the announcement, then the kernel once more.
pub proof fn law_expected_events(state: LoadState, event: LoadEvent)
    ensures
        state.expects(event) <==> match event {
            LoadEvent::File(_) => state is Reading,
            LoadEvent::Log(_) => state is OpeningLog,
            LoadEvent::Init(_) => state is Loading || state is Retrying,
            LoadEvent::Records(_) => state is Diagnosing,
            LoadEvent::Announced => state is Revising,
        },
{
}

/// A module that cannot be read, or not as an ELF file, ends the load with that error. Any
/// other is kept as it is. It is linked if a symbol behind the first has both a name and the
/// section index zero; otherwise the log is next, and no symbol is missing.
pub proof fn law_module_is_taken_in(
    file: Result<Vec<u8>, String>,
    next: LoadState,
    action: LoadAction,
)
    ensures
        goes_on(LoadState::Reading, LoadEvent::File(file), next, action) ==> match file {
            Err(message) => {
                &&& next is Finished
                &&& action matches LoadAction::Finish(Err(error)) && error.0
                    == ErrorCode::ReadFileFailed && error.1@ == message@
            },
            Ok(module) => match elf_image(module@, usize::BITS) {
                Err(message) => {
                    &&& next is Finished
                    &&& action matches LoadAction::Finish(Err(error)) && error.0
                        == ErrorCode::ReadElfFailed && error.1@ == message
                },
                Ok(image) => if exists|i: int|
                    #![trigger image.symbols[i]]
                    1 <= i < image.symbols.len() && image.symbols[i].record.st_shndx == 0
                        && image.symbols[i].name is Some {
                    &&& action is ReadKallsyms
                    &&& next matches LoadState::Linking(resolver) && {
                        &&& resolver.buffer@ == module@
                        &&& resolver.is_64 == image.is_64
                        &&& resolver.little_endian == image.little_endian
                        &&& resolver.pending@ == undefined_symbols(image)
                    }
                } else {
                    &&& next matches LoadState::OpeningLog { buffer } && buffer@ == module@
                    &&& action matches LoadAction::OpenLog { missing } && missing@.len() == 0
                },
            },
        },
{
    if let Ok(module) = file {
        if let Ok(image) = elf_image(module@, usize::BITS) {
            law_nothing_to_link(image);
        }
    }
}

/// A module is given to the kernel as it was linked. A load ends well as soon as the kernel
/// takes the module. If it does not, and the log is open, the log is read, and the module
/// and the error are kept; without a log the error ends the load.
pub proof fn law_module_is_handed_over(
    buffer: Vec<u8>,
    open: bool,
    answer: Result<(), String>,
    next: LoadState,
    action: LoadAction,
)
    ensures
        goes_on(LoadState::OpeningLog { buffer }, LoadEvent::Log(open), next, action) ==> {
            &&& action is Init
            &&& next matches LoadState::Loading { buffer: module, log } && module@ == buffer@
                && log == open
        },
        goes_on(LoadState::Loading { buffer, log: open }, LoadEvent::Init(answer), next, action)
            ==> match answer {
            Ok(_) => next is Finished && (action matches LoadAction::Finish(Ok(_))),
            Err(message) => if open {
                &&& action is ReadLog
                &&& next matches LoadState::Diagnosing { buffer: module, error } && module@
                    == buffer@ && error@ == message@
            } else {
                &&& next is Finished
                &&& action matches LoadAction::Finish(Err(error)) && error.0
                    == ErrorCode::InitModuleFailed && error.1@
                    == "init_module failed without vermagic mismatch: "@ + message@
            },
        },
{
}

/// A rejected module gets the vermagic that the log asks for, if it asks for one; otherwise
/// the error of the kernel, whole, ends the load.
pub proof fn law_rejection_is_diagnosed(
    buffer: Vec<u8>,
    error: String,
    log: Result<String, String>,
    next: LoadState,
    action: LoadAction,
)
    ensures
        goes_on(LoadState::Diagnosing { buffer, error }, LoadEvent::Records(log), next, action)
            ==> match log {
            Ok(text) => match required_vermagic(text@) {
                Some(required) => {
                    &&& next matches LoadState::Revising { buffer: module, vermagic } && module@
                        == buffer@ && vermagic@ == required
                    &&& action matches LoadAction::Announce { vermagic } && vermagic@ == required
                },
                None => {
                    &&& next is Finished
                    &&& action matches LoadAction::Finish(Err(failure)) && failure.0
                        == ErrorCode::InitModuleFailed && failure.1@
                        == "init_module failed without vermagic mismatch: "@ + error@
                },
            },
            Err(_) => {
                &&& next is Finished
                &&& action matches LoadAction::Finish(Err(failure)) && failure.0
                    == ErrorCode::InitModuleFailed && failure.1@
                    == "init_module failed without vermagic mismatch: "@ + error@
            },
        },
{
}

/// The second attempt is made with the revised module, and with nothing else; where it
/// cannot be revised, the reason ends the load. What the kernel answers then is the end.
pub proof fn law_second_attempt_is_the_last(
    buffer: Vec<u8>,
    vermagic: String,
    answer: Result<(), String>,
    next: LoadState,
    action: LoadAction,
)
    ensures
        goes_on(LoadState::Revising { buffer, vermagic }, LoadEvent::Announced, next, action)
            ==> match elf_image(buffer@, usize::BITS) {
            Err(message) => {
                &&& next is Finished
                &&& action matches LoadAction::Finish(Err(failure)) && failure.0
                    == ErrorCode::ReplaceVermagicFailed && failure.1@ == message
            },
            Ok(image) => match revised_module(buffer@, image, encode_utf8(vermagic@)) {
                (module, Ok(_)) => {
                    &&& next matches LoadState::Retrying { buffer: revision } && revision@
                        == module
                    &&& action matches LoadAction::Retry { vermagic: shown } && shown@ == vermagic@
                },
                (_, Err(layout)) => {
                    &&& next is Finished
                    &&& action matches LoadAction::Finish(Err(failure)) && failure.0
                        == ErrorCode::ReplaceVermagicFailed && failure.1@ == layout.text()
                },
            },
        },
        goes_on(LoadState::Retrying { buffer }, LoadEvent::Init(answer), next, action)
            ==> match answer {
            Ok(_) => next is Finished && (action matches LoadAction::Finish(Ok(_))),
            Err(message) => {
                &&& next is Finished
                &&& action matches LoadAction::Finish(Err(failure)) && failure.0
                    == ErrorCode::InitModuleFailed && failure.1@ == message@
            },
        },
{
}

/// The kernel is given the parameters as they are, unless they hold a zero character; then,
/// or where there are none, it is given none.
pub proof fn law_params_are_given(params: Option<&str>)
    ensures
        match params {
            None => given_params(params).len() == 0,
            Some(text) => {
                &&& (forall|i: int| 0 <= i < text@.len() ==> #[trigger] text@[i] != '\0')
                    ==> given_params(params) == text@
                &&& (exists|i: int| 0 <= i < text@.len() && #[trigger] text@[i] == '\0')
                    ==> given_params(params).len() == 0
            },
        },
{
    if let Some(text) = params {
        if text@.contains('\0') {
            let i = choose|i: int| 0 <= i < text@.len() && text@[i] == '\0';
            assert(text@[i] == '\0');
        }
    }
}

/// A load that fails is over, and tells the error and its text, whole; and a module that
/// has been linked is kept, byte by byte, while the log is opened.
pub proof fn law_failure_is_told(
    next: LoadState,
    action: LoadAction,
    code: ErrorCode,
    text: Seq<char>,
    module: Seq<u8>,
)
    ensures
        failed(next, action, code, text) <==> next is Finished && (
        action matches LoadAction::Finish(Err(error)) && error.0 == code && error.1@ == text),
        linked(next, action, module) <==> action is OpenLog && (
        next matches LoadState::OpeningLog { buffer } && buffer@ == module),
{
}

/// A load whose module has been read, and whose kernel symbols can be, goes on with the
/// module in which a symbol that has a name and the section index zero is an absolute one
/// at the address of the first line that names it, and every other byte is that of the
/// file. It reports as missing what no line names.
pub proof fn law_load_links_symbols(
    bytes: Seq<u8>,
    image: ElfView,
    resolver: Resolver,
    lines: Seq<String>,
    buffer: Vec<u8>,
    missing: Vec<String>,
    i: int,
    k: int,
)
    requires
        bytes.len() <= usize::MAX,
        holds_symbols(bytes, image),
        resolver.starts(bytes, image),
        !unreadable(lines),
        links(
            resolver,
            lines,
            LoadState::OpeningLog { buffer },
            LoadAction::OpenLog { missing },
        ),
        1 <= i < image.symbols.len(),
        image.symbols[i].record.st_shndx == 0,
        image.symbols[i].name is Some,
        forall|j: int|
            i < j < image.symbols.len() && image.symbols[j].record.st_shndx == 0
                ==> #[trigger] image.symbols[j].name != image.symbols[i].name,
    ensures
        ({
            let symbols = kernel_symbols(lines);
            let le = image.little_endian;
            &&& buffer@.len() == bytes.len()
            &&& 0 <= k < symbols.len() && Some(symbols[k].0) == image.symbols[i].name && (forall|
                j: int,
            |
                0 <= j < k ==> Some((#[trigger] symbols[j]).0) != image.symbols[i].name)
                && image.is_64 ==> {
                let at = image.symtab_offset + i * 24;
                &&& word_value(buffer@.subrange(at + 6, at + 8), le) == 0xfff1
                &&& word_value(buffer@.subrange(at + 8, at + 16), le) == symbols[k].1
            }
            &&& texts(missing@).contains(image.symbols[i].name->0) <==> forall|j: int|
                0 <= j < symbols.len() ==> Some((#[trigger] symbols[j]).0) != image.symbols[i].name
        }),
{
    let symbols = kernel_symbols(lines);
    let name = image.symbols[i].name->0;
    law_linking_binds_undefined_symbols(bytes, image, symbols);
    if 0 <= k < symbols.len() && Some(symbols[k].0) == image.symbols[i].name && (forall|j: int|
        0 <= j < k ==> Some((#[trigger] symbols[j]).0) != image.symbols[i].name) {
        law_symbol_is_linked(bytes, image, symbols, i, k);
    }
    law_missing_symbols_are_unlisted(bytes, image, symbols, name);
    assert(image.symbols[i].name == Some(name));
    let left = bind_all(
        resolver.buffer@,
        resolver.pending@,
        symbols,
        resolver.is_64,
        resolver.little_endian,
    ).1;
    let action = LoadAction::OpenLog { missing };
    assert(action->missing@ == missing@);
    assert(texts(action->missing@) == texts(missing@));
    assert(texts(action->missing@).contains(name) <==> left.contains_key(name));
    assert(texts(missing@).contains(name) <==> left.contains_key(name));
    if forall|j: int| 0 <= j < symbols.len() ==> (#[trigger] symbols[j]).0 != name {
        assert forall|j: int| 0 <= j < symbols.len() implies Some((#[trigger] symbols[j]).0)
            != image.symbols[i].name by {
            assert(symbols[j].0 != name);
        }
    } else {
        let j = choose|j: int| 0 <= j < symbols.len() && (#[trigger] symbols[j]).0 == name;
        assert(Some(symbols[j].0) == image.symbols[i].name);
    }
}

/// A symbol table of which nothing can be told ends the load, and any other lets it go on.
pub proof fn law_unreadable_table_ends_load(
    resolver: Resolver,
    lines: Seq<String>,
    next: LoadState,
    action: LoadAction,
)
    requires
        links(resolver, lines, next, action),
    ensures
        next is Finished <==> unreadable(lines),
        next is OpeningLog <==> !unreadable(lines),
        unreadable(lines) ==> (action matches LoadAction::Finish(Err(error)) && error.0
            == ErrorCode::ParseKallsymsFailed),
{
}

} // verus!
