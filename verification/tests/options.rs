use source_browser::options::{opts_from, parse, Error};

fn args(words: &[&str]) -> Vec<String> {
    words.iter().map(|w| w.to_string()).collect()
}

#[test]
fn the_three_options_are_read() {
    let opts = parse(args(&["prog", "-i", "src", "-o", "out", "-t", "page.html"])).unwrap();
    assert_eq!(opts.input, "src");
    assert_eq!(opts.output, "out");
    assert_eq!(opts.template, "page.html");
}

#[test]
fn long_names_and_any_order_are_accepted() {
    let opts = parse(args(&["prog", "--template=t", "--out", "o", "--in", "i", "-h"])).unwrap();
    assert_eq!((opts.input.as_str(), opts.output.as_str(), opts.template.as_str()), ("i", "o", "t"));
}

#[test]
fn the_first_argument_is_the_name_of_the_program() {
    // read as an option it would be one that nobody declared
    let opts = parse(args(&["-x", "-i", "a", "-o", "b", "-t", "c"])).unwrap();
    assert_eq!(opts.input, "a");
}

#[test]
fn a_missing_option_is_an_error() {
    let error = parse(args(&["prog", "-i", "src", "-t", "page.html"])).unwrap_err();
    assert_eq!(error.to_string(), "Required option 'out' missing");
    let error = parse(Vec::new()).unwrap_err();
    assert_eq!(error.to_string(), "Required option 'in' missing");
}

#[test]
fn an_option_nobody_declared_is_an_error() {
    let error = parse(args(&["prog", "-i", "a", "-o", "b", "-t", "c", "-x"])).unwrap_err();
    assert_eq!(error.to_string(), "Unrecognized option: 'x'");
}

#[test]
fn an_option_without_its_argument_is_an_error() {
    let error = parse(args(&["prog", "-o", "b", "-t", "c", "-i"])).unwrap_err();
    assert_eq!(error.to_string(), "Argument to option 'i' missing");
}

#[test]
fn an_option_given_twice_is_an_error() {
    let error = parse(args(&["prog", "-i", "a", "-i", "a", "-o", "b", "-t", "c"])).unwrap_err();
    assert_eq!(error.to_string(), "Option 'in' given more than once");
}

#[test]
fn options_are_made_of_the_arguments_found() {
    let some = |s: &str| Some(s.to_string());
    let opts = opts_from(some("a"), some("b"), some("c")).unwrap();
    assert_eq!((opts.input.as_str(), opts.output.as_str(), opts.template.as_str()), ("a", "b", "c"));
    assert_eq!(opts_from(None, some("b"), None).unwrap_err().to_string(), "Required option 'in' missing");
    assert_eq!(opts_from(some("a"), None, None).unwrap_err().to_string(), "Required option 'out' missing");
    assert_eq!(
        opts_from(some("a"), some("b"), None).unwrap_err().to_string(),
        "Required option 'template' missing"
    );
    assert_eq!(Error::new("x").to_string(), "x");
}
