//! The options of the command line.

use vstd::prelude::*;
use vstd::string::*;
use vstd::utf8::is_ascii_chars;

verus! {

/// `getopts::Options`, a parser and the options it has been told of. Nothing
/// is seen of what is inside.
#[verifier::external_type_specification]
#[verifier::external_body]
pub struct ExOptions(getopts::Options);

/// `getopts::Matches`, what a parser found in the arguments. Nothing is seen
/// of what is inside.
#[verifier::external_type_specification]
#[verifier::external_body]
pub struct ExMatches(getopts::Matches);

/// `getopts::Fail`, a parser's complaint about the arguments. Nothing is seen
/// of what is inside.
#[verifier::external_type_specification]
#[verifier::external_body]
pub struct ExFail(getopts::Fail);

/// The options that a parser has been told of, in the order in which it was
/// told: the short and the long name of each, and whether it must be given
/// and takes an argument; if not, it may be given and takes none.
pub uninterp spec fn declared(options: getopts::Options) -> Seq<(Seq<char>, Seq<char>, bool)>;

/// Whether the parser reads arguments in the way a new parser does: options
/// and other arguments may stand in any order, and a long name begins with
/// two dashes.
pub uninterp spec fn default_style(options: getopts::Options) -> bool;

/// The options that the parser knew which gave these matches, as `declared`
/// gives them.
pub uninterp spec fn known(matches: getopts::Matches) -> Seq<(Seq<char>, Seq<char>, bool)>;

/// The arguments that were found: under the short and under the long name of
/// each option that was given with an argument, the first argument given to
/// it.
pub uninterp spec fn found(matches: getopts::Matches) -> Map<Seq<char>, Seq<char>>;

/// The complaint as it is written for the user.
pub uninterp spec fn complaint(fail: getopts::Fail) -> Seq<char>;

/// What a parser of the default style that has been told of `options` makes
/// of `args`: the arguments found, as `found` gives them, or its complaint,
/// as `complaint` gives it.
pub uninterp spec fn parsed(options: Seq<(Seq<char>, Seq<char>, bool)>, args: Seq<Seq<char>>) -> Result<Map<Seq<char>, Seq<char>>, Seq<char>>;

/// Names that a parser accepts for an option: a short name of one character
/// and a long name of more than one, both in ASCII.
pub open spec fn names_allowed(short_name: Seq<char>, long_name: Seq<char>) -> bool {
    &&& is_ascii_chars(short_name)
    &&& short_name.len() == 1
    &&& is_ascii_chars(long_name)
    &&& long_name.len() > 1
}

/// Whether `name` is the short or the long name of one of the options.
pub open spec fn names_option(options: Seq<(Seq<char>, Seq<char>, bool)>, name: Seq<char>) -> bool {
    exists|i: int| 0 <= i < options.len() && ((#[trigger] options[i]).0 == name || options[i].1 == name)
}

/// The arguments as plain values.
pub open spec fn words(args: Seq<String>) -> Seq<Seq<char>> {
    args.map_values(|arg: String| arg@)
}

/// `getopts::Options::new`: a parser of the default style that has been told
/// of no option.
#[verifier::external_body]
fn blank_parser() -> (options: getopts::Options)
    ensures
        declared(options) == Seq::<(Seq<char>, Seq<char>, bool)>::empty(),
        default_style(options),
{
    getopts::Options::new()
}

/// `getopts::Options::reqopt`: tells the parser of an option that must be
/// given, with an argument, and leaves its style as it is. The outside
/// function refuses, by a panic, a short name that is not one byte long or
/// empty and a long name that is one byte long; such names are left out
/// here.
#[verifier::external_body]
fn require_option(
    options: &mut getopts::Options,
    short_name: &str,
    long_name: &str,
    desc: &str,
    hint: &str,
)
    requires
        names_allowed(short_name@, long_name@),
    ensures
        declared(*final(options)) == declared(*old(options)).push((short_name@, long_name@, true)),
        default_style(*final(options)) == default_style(*old(options)),
{
    options.reqopt(short_name, long_name, desc, hint);
}

/// `getopts::Options::optflag`: tells the parser of an option that may be
/// given, without an argument, and leaves its style as it is. It refuses the
/// same names as `reqopt`.
#[verifier::external_body]
fn allow_flag(options: &mut getopts::Options, short_name: &str, long_name: &str, desc: &str)
    requires
        names_allowed(short_name@, long_name@),
    ensures
        declared(*final(options)) == declared(*old(options)).push((short_name@, long_name@, false)),
        default_style(*final(options)) == default_style(*old(options)),
{
    options.optflag(short_name, long_name, desc);
}

/// `getopts::Options::parse`: reads the arguments against the options that
/// the parser has been told of. The outside function panics on an option
/// without any name, so every option must have one. What it makes of the
/// arguments depends on the options, the style and the arguments alone, and
/// is given the name `parsed`; the matches know the options that the parser
/// knew.
#[verifier::external_body]
fn parse_arguments(options: &getopts::Options, args: &Vec<String>) -> (result: Result<
    getopts::Matches,
    getopts::Fail,
>)
    requires
        default_style(*options),
        forall|i: int|
            0 <= i < declared(*options).len() ==> names_allowed(
                (#[trigger] declared(*options)[i]).0,
                declared(*options)[i].1,
            ),
    ensures
        match result {
            Ok(matches) => known(matches) == declared(*options) && parsed(
                declared(*options),
                words(args@),
            ) == Ok::<Map<Seq<char>, Seq<char>>, Seq<char>>(found(matches)),
            Err(fail) => parsed(declared(*options), words(args@)) == Err::<
                Map<Seq<char>, Seq<char>>,
                Seq<char>,
            >(complaint(fail)),
        },
{
    options.parse(args)
}

/// `getopts::Matches::opt_str`: the first argument given to an option, if
/// one was given; this is what `found` holds under the option's names. The
/// outside function panics on a name that is not that of an option the
/// parser knew.
#[verifier::external_body]
fn option_text(matches: &getopts::Matches, name: &str) -> (text: Option<String>)
    requires
        names_option(known(*matches), name@),
    ensures
        match text {
            Some(argument) => found(*matches).contains_key(name@) && found(*matches)[name@]
                == argument@,
            None => !found(*matches).contains_key(name@),
        },
{
    matches.opt_str(name)
}

/// What went wrong with the arguments, as `getopts::Fail` writes it with
/// `to_string`.
#[verifier::external_body]
fn fail_text(fail: &getopts::Fail) -> (text: String)
    ensures
        text@ == complaint(*fail),
{
    fail.to_string()
}

/// What the program was asked to do.
#[derive(Debug)]
pub struct Opts {
    /// The directory of the program to render.
    pub input: String,
    /// The directory to write the pages to.
    pub output: String,
    /// The file with the template of a page.
    pub template: String,
}

/// The options as plain values.
pub struct OptsView {
    pub input: Seq<char>,
    pub output: Seq<char>,
    pub template: Seq<char>,
}

impl View for Opts {
    type V = OptsView;

    open spec fn view(&self) -> OptsView {
        OptsView { input: self.input@, output: self.output@, template: self.template@ }
    }
}

/// Why the arguments could not be read.
#[derive(Debug)]
pub struct Error(pub String);

impl View for Error {
    type V = Seq<char>;

    open spec fn view(&self) -> Seq<char> {
        self.0@
    }
}

impl Error {
    /// The error with the given message.
    pub fn new(message: &str) -> (error: Error)
        ensures
            error@ == message@,
    {
        Error(String::from_str(message))
    }

    /// The message of this error.
    pub fn to_string(&self) -> (message: String)
        ensures
            message@ == self@,
    {
        self.0.clone()
    }
}

/// The options of this program: `-i`/`--in`, `-o`/`--out` and
/// `-t`/`--template` must be given, each with an argument; `-h`/`--help` may
/// be given.
pub open spec fn program_options() -> Seq<(Seq<char>, Seq<char>, bool)> {
    seq![
        ("i"@, "in"@, true),
        ("o"@, "out"@, true),
        ("t"@, "template"@, true),
        ("h"@, "help"@, false),
    ]
}

/// The parser for the options of this program.
fn create_options_parser() -> (parser: getopts::Options)
    ensures
        declared(parser) == program_options(),
        default_style(parser),
        forall|i: int|
            0 <= i < declared(parser).len() ==> names_allowed(
                (#[trigger] declared(parser)[i]).0,
                declared(parser)[i].1,
            ),
{
    proof {
        reveal_strlit("i");
        reveal_strlit("in");
        reveal_strlit("o");
        reveal_strlit("out");
        reveal_strlit("t");
        reveal_strlit("template");
        reveal_strlit("h");
        reveal_strlit("help");
    }
    let mut opts = blank_parser();
    require_option(&mut opts, "i", "in", "", "DIR");
    require_option(&mut opts, "o", "out", "", "DIR");
    require_option(&mut opts, "t", "template", "", "FILE");
    allow_flag(&mut opts, "h", "help", "print this help menu");
    assert(declared(opts) =~= program_options());
    opts
}

/// The options that the three arguments make, or what to tell the user
/// where one is missing: the first that is missing is named.
pub open spec fn chosen(
    input: Option<Seq<char>>,
    output: Option<Seq<char>>,
    template: Option<Seq<char>>,
) -> Result<OptsView, Seq<char>> {
    match (input, output, template) {
        (Some(i), Some(o), Some(t)) => Ok(OptsView { input: i, output: o, template: t }),
        (None, _, _) => Err("Required option 'in' missing"@),
        (Some(_), None, _) => Err("Required option 'out' missing"@),
        (Some(_), Some(_), None) => Err("Required option 'template' missing"@),
    }
}

/// The argument found under `name`, if there is one.
pub open spec fn argument(found: Map<Seq<char>, Seq<char>>, name: Seq<char>) -> Option<Seq<char>> {
    if found.contains_key(name) {
        Some(found[name])
    } else {
        None
    }
}

/// What the program is asked to do, from what the parser made of the
/// arguments: its complaint stays what it is; of what it found, the arguments
/// of `-i`, `-o` and `-t` make the options.
pub open spec fn asked(outcome: Result<Map<Seq<char>, Seq<char>>, Seq<char>>) -> Result<
    OptsView,
    Seq<char>,
> {
    match outcome {
        Ok(found) => chosen(argument(found, "i"@), argument(found, "o"@), argument(found, "t"@)),
        Err(message) => Err(message),
    }
}

/// The arguments without the first, which is the program's own name.
pub open spec fn after_program(args: Seq<Seq<char>>) -> Seq<Seq<char>> {
    if args.len() > 0 {
        args.skip(1)
    } else {
        args
    }
}

/// The options, from the arguments found for them: all three must be there.
pub fn opts_from(input: Option<String>, output: Option<String>, template: Option<String>) -> (result:
    Result<Opts, Error>)
    ensures
        match (input, output, template) {
            (Some(i), Some(o), Some(t)) => result matches Ok(opts) && opts.input == i && opts.output
                == o && opts.template == t,
            (None, _, _) => result matches Err(error) && error@ == "Required option 'in' missing"@,
            (Some(_), None, _) => result matches Err(error) && error@
                == "Required option 'out' missing"@,
            (Some(_), Some(_), None) => result matches Err(error) && error@
                == "Required option 'template' missing"@,
        },
{
    let input = match input {
        Some(input) => input,
        None => {
            return Err(Error::new("Required option 'in' missing"));
        },
    };
    let output = match output {
        Some(output) => output,
        None => {
            return Err(Error::new("Required option 'out' missing"));
        },
    };
    let template = match template {
        Some(template) => template,
        None => {
            return Err(Error::new("Required option 'template' missing"));
        },
    };
    Ok(Opts { input, output, template })
}

/// Reads the arguments of the program, the first of which is the program's
/// own name: the options are what `asked` makes of what the parser makes of
/// the other arguments.
pub fn parse(args: Vec<String>) -> (result: Result<Opts, Error>)
    ensures
        match asked(parsed(program_options(), after_program(words(args@)))) {
            Ok(opts) => result matches Ok(read) && read@ == opts,
            Err(message) => result matches Err(error) && error@ == message,
        },
{
    let parser = create_options_parser();
    let ghost given = words(args@);
    let mut args = args;
    if args.len() > 0 {
        args.remove(0);
    }
    assert(words(args@) =~= after_program(given));
    let matches = match parse_arguments(&parser, &args) {
        Ok(matches) => matches,
        Err(fail) => {
            return Err(Error(fail_text(&fail)));
        },
    };
    proof {
        assert(known(matches)[0] == ("i"@, "in"@, true));
        assert(known(matches)[1] == ("o"@, "out"@, true));
        assert(known(matches)[2] == ("t"@, "template"@, true));
    }
    opts_from(option_text(&matches, "i"), option_text(&matches, "o"), option_text(&matches, "t"))
}

} // verus!
