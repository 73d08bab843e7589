//! The command line.

use zenjpegai::cli::{command, names_yuv, parse_args, ArgError, Command, CommandError};
use zenjpegai::header::OperatingPoint;
use zenjpegai::text::{begins, characters, contains, copy, number, same, split_once, NumberError};

fn args(list: &[&str]) -> Vec<String> {
    list.iter().map(|s| s.to_string()).collect()
}

#[test]
fn texts() {
    assert!(same("abc", "abc") && !same("abc", "abd") && !same("ab", "abc"));
    assert!(contains("abc", "bc") && contains("abc", "") && !contains("abc", "ca"));
    assert!(begins("abc", "ab") && !begins("ab", "abc"));
    assert_eq!(copy("xyz"), "xyz");
    assert_eq!(characters("hé"), ['h', 'é']);
    assert_eq!(split_once("a=b=c", '='), Some(("a".to_string(), "b=c".to_string())));
    assert_eq!(split_once("abc", '='), None);
    assert_eq!(number("-12", -100, 100), Ok(-12));
    assert_eq!(number("+7", 0, 100), Ok(7));
    assert_eq!(number("", 0, 9), Err(NumberError::Empty));
    assert_eq!(number("1x", 0, 9), Err(NumberError::InvalidDigit));
    assert_eq!(number("300", 0, 255), Err(NumberError::TooLarge));
    assert_eq!(number("-200", -128, 127), Err(NumberError::TooSmall));
}

#[test]
fn options_are_read() {
    let a = parse_args(
        &args(&["decode", "in.jai", "out.png", "--op", "hop", "--models", "m", "--repeat", "3"]),
        None,
    )
    .unwrap();
    assert_eq!(a.positional, ["decode", "in.jai", "out.png"]);
    assert_eq!((a.op, a.repeat), (Some(OperatingPoint::Hop), 3));
    assert_eq!(
        command(&a),
        Ok(Command::Decode {
            models: "m".to_string(),
            input: "in.jai".to_string(),
            output: "out.png".to_string(),
        })
    );
}

#[test]
fn arguments_that_are_refused() {
    assert_eq!(parse_args(&args(&["--help"]), None).err(), Some(ArgError::Help));
    assert_eq!(
        parse_args(&args(&["--bogus"]), None).err(),
        Some(ArgError::UnknownOption("--bogus".to_string()))
    );
    assert_eq!(
        parse_args(&args(&["--op", "xop"]), None).err(),
        Some(ArgError::UnknownOperatingPoint("xop".to_string()))
    );
    assert!(matches!(
        parse_args(&args(&["--repeat"]), None),
        Err(ArgError::NeedsValue(_))
    ));
    assert!(matches!(
        parse_args(&args(&["--repeat", "x"]), None),
        Err(ArgError::BadNumber(_, NumberError::InvalidDigit))
    ));
}

#[test]
fn commands_that_are_refused() {
    let a = parse_args(&args(&[]), None).unwrap();
    assert_eq!(command(&a), Err(CommandError::Usage));
    let a = parse_args(&args(&["info", "x.jai"]), None).unwrap();
    assert_eq!(command(&a), Ok(Command::Info("x.jai".to_string())));
    let a = parse_args(&args(&["decode", "a", "b"]), None).unwrap();
    assert_eq!(command(&a), Err(CommandError::NoModels));
    let a = parse_args(&args(&["pack-models"]), Some("m".to_string())).unwrap();
    assert_eq!(command(&a), Err(CommandError::NoOut));
}

#[test]
fn raw_outputs_are_named_by_their_ending() {
    assert!(names_yuv("a.yuv"));
    assert!(!names_yuv("a.png"));
}
