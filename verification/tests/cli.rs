use modloader::cli::{read_command_line, report, Exit, Request};
use modloader::error::ErrorCode;

fn arguments(list: &[&[u8]]) -> Vec<Vec<u8>> {
    list.iter().map(|argument| argument.to_vec()).collect()
}

fn request(list: &[&[u8]]) -> Request {
    match read_command_line(0, &arguments(list)) {
        Ok(request) => request,
        Err(exit) => panic!("{:?}", exit),
    }
}

fn refusal(uid: u32, list: &[&[u8]]) -> Exit {
    match read_command_line(uid, &arguments(list)) {
        Ok(request) => panic!("{:?}", request),
        Err(exit) => exit,
    }
}

const ALL: [ErrorCode; 7] = [
    ErrorCode::InvalidProcess,
    ErrorCode::ReadFileFailed,
    ErrorCode::ReadElfFailed,
    ErrorCode::AppendElfFailed,
    ErrorCode::ParseKallsymsFailed,
    ErrorCode::InitModuleFailed,
    ErrorCode::ReplaceVermagicFailed,
];

#[test]
fn only_root_may_load_modules() {
    let exit = refusal(1000, &[b"/usr/bin/modloader", b"my_module.ko"]);
    assert_eq!(exit.code, 1);
    assert_eq!(
        exit.lines,
        vec!["modloader: ERROR: Insufficient permission. Please run as root."]
    );
    assert_eq!(refusal(1000, &[b"modloader"]).code, 1);
}

#[test]
fn a_module_must_be_named() {
    let exit = refusal(0, &[b"/usr/bin/modloader"]);
    assert_eq!(exit.code, 2);
    assert_eq!(
        exit.lines,
        vec![
            "modloader: ERROR: Invalid arguments.",
            "modloader: Usage: '/usr/bin/modloader path/to/module.ko [params]'",
        ]
    );
}

#[test]
fn the_name_of_a_module_must_be_a_text() {
    let exit = refusal(0, &[b"modloader", b"mod\xff.ko"]);
    assert_eq!(exit.code, 2);
    assert_eq!(exit.lines, vec!["modloader: ERROR: Invalid argument 'mod\u{fffd}.ko'."]);
}

#[test]
fn parameters_are_joined_by_spaces() {
    let request = request(&[b"modloader", b"my_module.ko", b"param1=value1", b"param2=value2"]);
    assert_eq!(request.program, "modloader");
    assert_eq!(request.argument, "my_module.ko");
    assert_eq!(request.path, "my_module.ko");
    assert_eq!(request.params, "param1=value1 param2=value2");
}

#[test]
fn a_dash_names_the_standard_input() {
    let request = request(&[b"modloader", b"-"]);
    assert_eq!(request.argument, "-");
    assert_eq!(request.path, "/dev/stdin");
    assert_eq!(request.params, "");
}

#[test]
fn empty_parameters_leave_no_space_in_front() {
    assert_eq!(request(&[b"m", b"x.ko", b"", b"a"]).params, "a");
    assert_eq!(request(&[b"m", b"x.ko", b"a", b"", b"b"]).params, "a  b");
    assert_eq!(request(&[b"m", b"x.ko", b"a", b""]).params, "a ");
}

#[test]
fn a_parameter_that_is_no_text_counts_as_empty() {
    assert_eq!(request(&[b"m", b"x.ko", b"\xff", b"b"]).params, "b");
    assert_eq!(request(&[b"m", b"x.ko", b"a", b"\xff\xfe", b"b"]).params, "a  b");
}

#[test]
fn the_words_of_parameters_stay_apart() {
    let params = request(&[b"m", b"x.ko", b" a b", b"", b"c ", b"d"]).params;
    let words: Vec<&str> = params.split_whitespace().collect();
    assert_eq!(words, vec!["a", "b", "c", "d"]);
}

#[test]
fn the_program_is_named_without_its_directory() {
    assert_eq!(request(&[b"./a/b/loader", b"x.ko"]).program, "loader");
    assert_eq!(request(&[b"loader", b"x.ko"]).program, "loader");
    assert_eq!(request(&[b"bin/", b"x.ko"]).program, "");
    assert_eq!(request(&[b"", b"x.ko"]).program, "");
}

#[test]
fn a_loaded_module_is_a_success() {
    let exit = report("modloader", "x.ko", &Ok(()), None);
    assert_eq!(exit.code, 0);
    assert!(exit.lines.is_empty());
}

#[test]
fn a_version_is_reported() {
    let exit = report("modloader", "x.ko", &Ok(()), Some(12345));
    assert_eq!(exit.code, 0);
    assert_eq!(exit.lines, vec!["modloader: KernelSU Version: 12345."]);
}

#[test]
fn a_missing_version_is_an_error() {
    let exit = report("modloader", "x.ko", &Ok(()), Some(0));
    assert_eq!(exit.code, 3);
    assert_eq!(exit.lines, vec!["modloader: ERROR: Invalid KernelSU version."]);
}

#[test]
fn an_error_is_reported_with_its_cause() {
    let outcome = Err((ErrorCode::ReadFileFailed, "No such file".to_string()));
    let exit = report("modloader", "-", &outcome, None);
    assert_eq!(exit.code, 8);
    assert_eq!(exit.lines, vec!["modloader: ERROR: -: Could not read file: No such file"]);
}

#[test]
fn an_error_without_a_message_is_told_by_its_code_alone() {
    let outcome = Err((ErrorCode::ReplaceVermagicFailed, "cause".to_string()));
    let exit = report("modloader", "x.ko", &outcome, None);
    assert_eq!(exit.code, 28);
    assert!(exit.lines.is_empty());
}

#[test]
fn every_error_has_its_exit_code() {
    let codes: Vec<i32> = ALL.iter().map(|error| error.exit_code()).collect();
    assert_eq!(codes, vec![4, 8, 12, 16, 20, 24, 28]);
}

#[test]
fn every_error_has_its_message() {
    let messages: Vec<Option<&str>> = ALL.iter().map(|error| error.message()).collect();
    assert_eq!(
        messages,
        vec![
            Some("Invalid process"),
            Some("Could not read file"),
            Some("Could not read ELF header of file"),
            Some("Could not append modifications to ELF"),
            Some("Could not parse kallsyms"),
            Some("Module init failed"),
            None,
        ]
    );
}

#[test]
fn exit_codes_differ() {
    for a in ALL {
        assert!(a.exit_code() > 3);
        for b in ALL {
            assert_eq!(a == b, a.exit_code() == b.exit_code());
        }
    }
}
