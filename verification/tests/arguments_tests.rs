use roberts_cross::arguments::{
    flag_of, parse_arguments, resolve_path, strip_quotes, ConfigurationError, Flag,
};

fn bytes(text: &str) -> Vec<u8> {
    text.as_bytes().to_vec()
}

fn args(list: &[&str]) -> Vec<Vec<u8>> {
    list.iter().map(|a| bytes(a)).collect()
}

#[test]
fn flags_with_values_after_an_equals_sign() {
    let a = parse_arguments(&args(&["-i=dem.dep", "-o=edges.dep", "--clip=1.5"])).unwrap();
    assert_eq!(a.input, bytes("dem.dep"));
    assert_eq!(a.output, bytes("edges.dep"));
    assert_eq!(a.clip, Some(bytes("1.5")));
}

#[test]
fn flags_with_values_in_the_next_argument() {
    let a = parse_arguments(&args(&["--input", "dem.dep", "--output", "edges.dep", "-clip", "2"]))
        .unwrap();
    assert_eq!(a.input, bytes("dem.dep"));
    assert_eq!(a.output, bytes("edges.dep"));
    assert_eq!(a.clip, Some(bytes("2")));
}

#[test]
fn clip_is_optional() {
    let a = parse_arguments(&args(&["-i=a", "-o=b"])).unwrap();
    assert_eq!(a.clip, None);
}

#[test]
fn flags_are_read_in_any_case_of_letters() {
    let a = parse_arguments(&args(&["--INPUT=a", "-O=b", "--Clip=3"])).unwrap();
    assert_eq!(a.input, bytes("a"));
    assert_eq!(a.output, bytes("b"));
    assert_eq!(a.clip, Some(bytes("3")));
}

#[test]
fn quotes_and_apostrophes_are_ignored() {
    let a = parse_arguments(&args(&["-i=\"my dem.dep\"", "'-o'='out.dep'"])).unwrap();
    assert_eq!(a.input, bytes("my dem.dep"));
    assert_eq!(a.output, bytes("out.dep"));
}

#[test]
fn value_from_the_next_argument_is_taken_as_it_stands() {
    let a = parse_arguments(&args(&["-i", "\"dem.dep\"", "-o", "b=c"])).unwrap();
    assert_eq!(a.input, bytes("\"dem.dep\""));
    assert_eq!(a.output, bytes("b=c"));
}

#[test]
fn value_ends_at_a_second_equals_sign() {
    let a = parse_arguments(&args(&["-i=a=b=c", "-o=x"])).unwrap();
    assert_eq!(a.input, bytes("a"));
}

#[test]
fn later_flag_replaces_an_earlier_one() {
    let a = parse_arguments(&args(&["-i=first", "-o=out", "--input=second"])).unwrap();
    assert_eq!(a.input, bytes("second"));
}

#[test]
fn unknown_arguments_are_passed_over() {
    let a = parse_arguments(&args(&["-v", "--wd=/data/", "-i=a", "extra", "-o=b", "--clipper=9"]))
        .unwrap();
    assert_eq!(a.input, bytes("a"));
    assert_eq!(a.output, bytes("b"));
    assert_eq!(a.clip, None);
}

#[test]
fn empty_list_is_an_error() {
    assert_eq!(parse_arguments(&args(&[])).unwrap_err(), ConfigurationError::NoArguments);
}

#[test]
fn flag_without_value_is_an_error() {
    assert_eq!(
        parse_arguments(&args(&["-i=a", "-o"])).unwrap_err(),
        ConfigurationError::MissingValue { position: 1 }
    );
    assert_eq!(
        parse_arguments(&args(&["--clip"])).unwrap_err(),
        ConfigurationError::MissingValue { position: 0 }
    );
}

#[test]
fn missing_input_is_an_error() {
    assert_eq!(
        parse_arguments(&args(&["-o=b", "--clip=1"])).unwrap_err(),
        ConfigurationError::MissingInput
    );
    assert_eq!(
        parse_arguments(&args(&["-i=", "-o=b"])).unwrap_err(),
        ConfigurationError::MissingInput
    );
}

#[test]
fn missing_output_is_an_error() {
    assert_eq!(
        parse_arguments(&args(&["-i=a"])).unwrap_err(),
        ConfigurationError::MissingOutput
    );
}

#[test]
fn missing_value_is_reported_before_missing_files() {
    assert_eq!(
        parse_arguments(&args(&["-o"])).unwrap_err(),
        ConfigurationError::MissingValue { position: 0 }
    );
}

#[test]
fn flag_of_knows_the_six_spellings() {
    assert_eq!(flag_of(&bytes("-i")), Some(Flag::Input));
    assert_eq!(flag_of(&bytes("--input")), Some(Flag::Input));
    assert_eq!(flag_of(&bytes("-o")), Some(Flag::Output));
    assert_eq!(flag_of(&bytes("--output")), Some(Flag::Output));
    assert_eq!(flag_of(&bytes("-clip")), Some(Flag::Clip));
    assert_eq!(flag_of(&bytes("--clip")), Some(Flag::Clip));
    assert_eq!(flag_of(&bytes("--CLIP")), Some(Flag::Clip));
    assert_eq!(flag_of(&bytes("-c")), None);
    assert_eq!(flag_of(&bytes("--inpu")), None);
    assert_eq!(flag_of(&bytes("--inputs")), None);
    assert_eq!(flag_of(&bytes("input")), None);
    assert_eq!(flag_of(&bytes("")), None);
    assert_eq!(flag_of(&bytes("-\u{130}")), None);
    assert_eq!(flag_of(&vec![0x2d, 0x49 | 0x80]), None);
    assert_eq!(flag_of(&bytes("-@")), None);
    assert_eq!(flag_of(&bytes("-I")), Some(Flag::Input));
}

#[test]
fn strip_quotes_removes_both_kinds() {
    assert_eq!(strip_quotes(&bytes("\"a'b\"c'")), bytes("abc"));
    assert_eq!(strip_quotes(&bytes("plain")), bytes("plain"));
    assert_eq!(strip_quotes(&bytes("\"\"''")), bytes(""));
    assert_eq!(strip_quotes(&bytes("")), bytes(""));
}

#[test]
fn name_without_separator_goes_behind_the_working_directory() {
    assert_eq!(resolve_path(&bytes("dem.dep"), &bytes("/data/"), b'/'), bytes("/data/dem.dep"));
    assert_eq!(resolve_path(&bytes("dem.dep"), &bytes(""), b'/'), bytes("dem.dep"));
}

#[test]
fn name_with_separator_stands_as_it_is() {
    assert_eq!(
        resolve_path(&bytes("/home/me/dem.dep"), &bytes("/data/"), b'/'),
        bytes("/home/me/dem.dep")
    );
    assert_eq!(resolve_path(&bytes("sub/dem.dep"), &bytes("/data/"), b'/'), bytes("sub/dem.dep"));
    assert_eq!(
        resolve_path(&bytes("sub/dem.dep"), &bytes("C:\\data\\"), b'\\'),
        bytes("C:\\data\\sub/dem.dep")
    );
}
