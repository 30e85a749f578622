use dep2j::args::{parse, Args, ArgsError};

fn do_parse(vec: Vec<&str>) -> Args {
    let args: Vec<String> = vec.iter().map(|x| x.to_string()).collect();
    parse(args).unwrap()
}

/**
 * parse()
 *
 * Verify that the function correctly handles empty input.
 */
#[test]
fn args_parse_001() {
    let vec = Vec::new();

    assert_eq!(Args::new(), do_parse(vec));
}

/**
 * parse()
 *
 * Verify that the function correctly handles input with just the
 * program name.
 */
#[test]
fn args_parse_002() {
    let vec = Vec::from(["dep2j"]);

    assert_eq!(Args::new(), do_parse(vec));
}

/**
 * parse()
 *
 * Verify that the function correctly handles arguments specifiying input
 * and output files.
 */
#[test]
fn args_parse_003() {
    let vec = Vec::from(["dep2j", "-o", "output.json", "input.d"]);

    let args = do_parse(vec);

    assert_eq!(false, args.help);
    assert_eq!(false, args.version);
    assert_eq!("output.json", args.output);
    assert_eq!(1, args.input.len());
    assert_eq!("input.d", args.input[0]);
}

/**
 * parse()
 *
 * Verify that the function correctly handles arguments with '--help'
 * and an input file.
 */
#[test]
fn args_parse_004() {
    let vec = Vec::from(["dep2j", "--help", "input.d"]);

    let args = do_parse(vec);

    assert_eq!(true, args.help);
    assert_eq!(1, args.input.len());
    assert_eq!("input.d", args.input[0]);
}

/**
 * parse()
 *
 * Verify that the function correctly handles input with the "dash dash"
 * argument.
 */
#[test]
fn parse_005() {
    let vec = Vec::from([
        "dep2j",
        "--version",
        "-o",
        "output.json",
        "--",
        "-h",
        "-input.d",
    ]);

    let args = do_parse(vec);

    assert_eq!(true, args.version);
    assert_eq!("output.json", args.output);
    assert_eq!(2, args.input.len());
    assert_eq!("-h", args.input[0]);
    assert_eq!("-input.d", args.input[1]);
}

/**
 * parse()
 *
 * Verify that a flag needing a value reports a missing value when it is
 * the last argument.
 */
#[test]
fn args_parse_missing_value() {
    let argv: Vec<String> = ["dep2j", "-o"].iter().map(|x| x.to_string()).collect();

    let err = parse(argv).unwrap_err();

    assert_eq!(ArgsError::MissingValue("-o".to_string()), err);
}

/**
 * parse()
 *
 * Verify that an unknown flag is reported, after its would-be value was
 * consumed.
 */
#[test]
fn args_parse_unknown_argument() {
    let argv: Vec<String> = ["dep2j", "-x", "y"].iter().map(|x| x.to_string()).collect();

    let err = parse(argv).unwrap_err();

    assert_eq!(ArgsError::UnknownArgument("-x".to_string()), err);
}

/**
 * parse()
 *
 * Verify that a trailing unknown flag reports a missing value, exactly as
 * the value-taking flags do.
 */
#[test]
fn args_parse_unknown_trailing() {
    let argv: Vec<String> = ["dep2j", "-x"].iter().map(|x| x.to_string()).collect();

    let err = parse(argv).unwrap_err();

    assert_eq!(ArgsError::MissingValue("-x".to_string()), err);
}
