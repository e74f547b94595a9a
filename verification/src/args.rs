//! The command line: a day (`YYYY-MM-DD` or `YYYYMMDD`) or a month
//! (`YYYY-MM` or `YYYYMM`) of this century, and the `--color` option.
use vstd::prelude::*;

use crate::text::{chars_of, push_char, str_eq, to_owned_string};

verus! {

/// What the positional argument asks for.
#[derive(Debug, Clone, PartialEq, Eq)]
pub enum ParsedArg {
    /// The report of one day, as `YYYY-MM-DD`.
    Day { date: String },
    /// The report of one month, as `YYYYMM`.
    Month { yyyymm: String },
}

/// The argument matches none of the accepted forms.
#[derive(Debug, Clone, PartialEq, Eq)]
pub enum ArgError {
    Unrecognized { arg: String },
}

impl ArgError {
    /// The message shown to the user.
    pub fn message(&self) -> (r: String)
        ensures
            r@ == arg_error_text(*self),
    {
        match self {
            ArgError::Unrecognized { arg } => {
                let mut out = to_owned_string("unrecognized argument '");
                crate::render::append(&mut out, arg.as_str());
                crate::render::append(
                    &mut out,
                    "'.\n\nUsage: activity YYYY-MM-DD|YYYYMMDD|YYYY-MM|YYYYMM [--color=never|always|auto]",
                );
                out
            },
        }
    }
}

pub open spec fn arg_error_text(e: ArgError) -> Seq<char> {
    match e {
        ArgError::Unrecognized { arg } => "unrecognized argument '"@ + arg@
            + "'.\n\nUsage: activity YYYY-MM-DD|YYYYMMDD|YYYY-MM|YYYYMM [--color=never|always|auto]"@,
    }
}

pub open spec fn is_digit(c: char) -> bool {
    '0' <= c && c <= '9'
}

/// Two characters `0[1-9]|1[0-2]`.
pub open spec fn month_chars(a: char, b: char) -> bool {
    (a == '0' && '1' <= b && b <= '9') || (a == '1' && '0' <= b && b <= '2')
}

/// Two characters `0[1-9]|[12]\d|3[01]`.
pub open spec fn day_chars(a: char, b: char) -> bool {
    ||| (a == '0' && '1' <= b && b <= '9')
    ||| ((a == '1' || a == '2') && is_digit(b))
    ||| (a == '3' && (b == '0' || b == '1'))
}

/// The first four characters are `20\d{2}`.
pub open spec fn year_chars(s: Seq<char>) -> bool {
    s.len() >= 4 && s[0] == '2' && s[1] == '0' && is_digit(s[2]) && is_digit(s[3])
}

/// `^(20\d{2})-(0[1-9]|1[0-2])-(0[1-9]|[12]\d|3[01])$`
pub open spec fn is_date_dashes(s: Seq<char>) -> bool {
    s.len() == 10 && year_chars(s) && s[4] == '-' && month_chars(s[5], s[6]) && s[7] == '-'
        && day_chars(s[8], s[9])
}

/// `^(20\d{2})(0[1-9]|1[0-2])(0[1-9]|[12]\d|3[01])$`
pub open spec fn is_date_compact(s: Seq<char>) -> bool {
    s.len() == 8 && year_chars(s) && month_chars(s[4], s[5]) && day_chars(s[6], s[7])
}

/// `^(20\d{2})-(0[1-9]|1[0-2])$`
pub open spec fn is_month_dashes(s: Seq<char>) -> bool {
    s.len() == 7 && year_chars(s) && s[4] == '-' && month_chars(s[5], s[6])
}

/// `^(20\d{2})(0[1-9]|1[0-2])$`
pub open spec fn is_month_compact(s: Seq<char>) -> bool {
    s.len() == 6 && year_chars(s) && month_chars(s[4], s[5])
}

/// What an argument asks for: `(true, date)` for a day, `(false, yyyymm)`
/// for a month, in the first form that matches, normalized.
pub open spec fn arg_meaning(s: Seq<char>) -> Option<(bool, Seq<char>)> {
    if is_date_dashes(s) {
        Some((true, s))
    } else if is_date_compact(s) {
        Some((true, s.subrange(0, 4) + seq!['-'] + s.subrange(4, 6) + seq!['-'] + s.subrange(6, 8)))
    } else if is_month_dashes(s) {
        Some((false, s.subrange(0, 4) + s.subrange(5, 7)))
    } else if is_month_compact(s) {
        Some((false, s))
    } else {
        None
    }
}

fn digit_at(s: &Vec<char>, i: usize) -> (r: bool)
    requires
        i < s@.len(),
    ensures
        r == is_digit(s@[i as int]),
{
    '0' <= s[i] && s[i] <= '9'
}

pub fn is_valid_month(a: char, b: char) -> (r: bool)
    ensures
        r == month_chars(a, b),
{
    if a == '0' {
        '1' <= b && b <= '9'
    } else if a == '1' {
        '0' <= b && b <= '2'
    } else {
        false
    }
}

pub fn is_valid_day(a: char, b: char) -> (r: bool)
    ensures
        r == day_chars(a, b),
{
    if a == '0' {
        '1' <= b && b <= '9'
    } else if a == '1' || a == '2' {
        '0' <= b && b <= '9'
    } else if a == '3' {
        b == '0' || b == '1'
    } else {
        false
    }
}

fn year_ok(s: &Vec<char>) -> (r: bool)
    ensures
        r == year_chars(s@),
{
    s.len() >= 4 && s[0] == '2' && s[1] == '0' && digit_at(s, 2) && digit_at(s, 3)
}

fn chars_to_string(s: &Vec<char>, from: usize, to: usize, out: &mut String)
    requires
        from <= to <= s@.len(),
    ensures
        final(out)@ == old(out)@ + s@.subrange(from as int, to as int),
{
    let ghost start = out@;
    let mut i: usize = from;
    while i < to
        invariant
            from <= i <= to <= s@.len(),
            out@ == start + s@.subrange(from as int, i as int),
        decreases to - i,
    {
        push_char(out, s[i]);
        proof {
            assert(s@.subrange(from as int, i + 1) =~= s@.subrange(from as int, i as int).push(
                s@[i as int],
            ));
        }
        i = i + 1;
    }
}

pub open spec fn opt_string_view(o: Option<String>) -> Option<Seq<char>> {
    match o {
        Some(s) => Some(s@),
        None => None,
    }
}

/// `s` if it is a date as `YYYY-MM-DD`.
pub fn match_date_dashes(s: &str) -> (r: Option<String>)
    ensures
        opt_string_view(r) == if is_date_dashes(s@) {
            Some(s@)
        } else {
            None
        },
{
    let c = chars_of(s);
    if c.len() == 10 && year_ok(&c) && c[4] == '-' && is_valid_month(c[5], c[6]) && c[7] == '-'
        && is_valid_day(c[8], c[9]) {
        Some(to_owned_string(s))
    } else {
        None
    }
}

/// `s` as `YYYY-MM-DD` if it is a date as `YYYYMMDD`.
pub fn match_date_compact(s: &str) -> (r: Option<String>)
    ensures
        opt_string_view(r) == if is_date_compact(s@) {
            Some(
                s@.subrange(0, 4) + seq!['-'] + s@.subrange(4, 6) + seq!['-'] + s@.subrange(6, 8),
            )
        } else {
            None
        },
{
    let c = chars_of(s);
    if c.len() == 8 && year_ok(&c) && is_valid_month(c[4], c[5]) && is_valid_day(c[6], c[7]) {
        let mut date = String::new();
        chars_to_string(&c, 0, 4, &mut date);
        push_char(&mut date, '-');
        chars_to_string(&c, 4, 6, &mut date);
        push_char(&mut date, '-');
        chars_to_string(&c, 6, 8, &mut date);
        proof {
            assert(date@ =~= c@.subrange(0, 4) + seq!['-'] + c@.subrange(4, 6) + seq!['-']
                + c@.subrange(6, 8));
        }
        Some(date)
    } else {
        None
    }
}

/// `s` as `YYYYMM` if it is a month as `YYYY-MM`.
pub fn match_month_dashes(s: &str) -> (r: Option<String>)
    ensures
        opt_string_view(r) == if is_month_dashes(s@) {
            Some(s@.subrange(0, 4) + s@.subrange(5, 7))
        } else {
            None
        },
{
    let c = chars_of(s);
    if c.len() == 7 && year_ok(&c) && c[4] == '-' && is_valid_month(c[5], c[6]) {
        let mut yyyymm = String::new();
        chars_to_string(&c, 0, 4, &mut yyyymm);
        chars_to_string(&c, 5, 7, &mut yyyymm);
        proof {
            assert(yyyymm@ =~= c@.subrange(0, 4) + c@.subrange(5, 7));
        }
        Some(yyyymm)
    } else {
        None
    }
}

/// `s` if it is a month as `YYYYMM`.
pub fn match_month_compact(s: &str) -> (r: Option<String>)
    ensures
        opt_string_view(r) == if is_month_compact(s@) {
            Some(s@)
        } else {
            None
        },
{
    let c = chars_of(s);
    if c.len() == 6 && year_ok(&c) && is_valid_month(c[4], c[5]) {
        Some(to_owned_string(s))
    } else {
        None
    }
}

/// Reads the positional argument: a day as `YYYY-MM-DD` or `YYYYMMDD`, a
/// month as `YYYY-MM` or `YYYYMM`, with a year from 2000 to 2099. Days are
/// normalized to `YYYY-MM-DD` and months to `YYYYMM`.
pub fn parse_arg(arg: &str) -> (r: Result<ParsedArg, ArgError>)
    ensures
        match arg_meaning(arg@) {
            Some((true, d)) => r matches Ok(ParsedArg::Day { date }) && date@ == d,
            Some((false, m)) => r matches Ok(ParsedArg::Month { yyyymm }) && yyyymm@ == m,
            None => r matches Err(ArgError::Unrecognized { arg: a }) && a@ == arg@,
        },
{
    if let Some(date) = match_date_dashes(arg) {
        return Ok(ParsedArg::Day { date });
    }
    if let Some(date) = match_date_compact(arg) {
        return Ok(ParsedArg::Day { date });
    }
    if let Some(yyyymm) = match_month_dashes(arg) {
        return Ok(ParsedArg::Month { yyyymm });
    }
    if let Some(yyyymm) = match_month_compact(arg) {
        return Ok(ParsedArg::Month { yyyymm });
    }
    Err(ArgError::Unrecognized { arg: to_owned_string(arg) })
}

/// The `--color` choice.
#[derive(Debug, Clone, Copy, PartialEq, Eq, Structural)]
pub enum ColorChoice {
    Never,
    Always,
    Auto,
}

impl ColorChoice {
    /// Whether to color: never, always, or (for `Auto`) when the `NO_COLOR`
    /// variable is not set and standard output is a terminal.
    pub fn resolve(&self, no_color: bool, stdout_is_terminal: bool) -> (r: bool)
        ensures
            r == match *self {
                ColorChoice::Never => false,
                ColorChoice::Always => true,
                ColorChoice::Auto => !no_color && stdout_is_terminal,
            },
    {
        match self {
            ColorChoice::Never => false,
            ColorChoice::Always => true,
            ColorChoice::Auto => !no_color && stdout_is_terminal,
        }
    }
}

/// The choice an argument sets, if it is a `--color` option.
pub open spec fn color_option(a: Seq<char>) -> Option<ColorChoice> {
    if a == "--color=never"@ {
        Some(ColorChoice::Never)
    } else if a == "--color=always"@ {
        Some(ColorChoice::Always)
    } else if a == "--color=auto"@ || a == "--color"@ {
        Some(ColorChoice::Auto)
    } else {
        None
    }
}

/// The choice left by the `--color` options among `args` (the last one
/// wins; `Auto` without any).
pub open spec fn color_choice_of(args: Seq<String>) -> ColorChoice
    decreases args.len(),
{
    if args.len() == 0 {
        ColorChoice::Auto
    } else {
        match color_option(args.last()@) {
            Some(c) => c,
            None => color_choice_of(args.drop_last()),
        }
    }
}

/// The arguments that are not `--color` options, in order.
pub open spec fn positional_args(args: Seq<String>) -> Seq<Seq<char>>
    decreases args.len(),
{
    if args.len() == 0 {
        Seq::empty()
    } else {
        let rest = positional_args(args.drop_last());
        if color_option(args.last()@) is Some {
            rest
        } else {
            rest.push(args.last()@)
        }
    }
}

/// Separates the `--color` options from the positional arguments.
pub fn split_color_options(args: &Vec<String>) -> (r: (ColorChoice, Vec<String>))
    ensures
        r.0 == color_choice_of(args@),
        r.1@.map_values(|s: String| s@) == positional_args(args@),
{
    let mut choice = ColorChoice::Auto;
    let mut rest: Vec<String> = Vec::new();
    let mut i: usize = 0;
    proof {
        assert(args@.subrange(0, 0) =~= Seq::<String>::empty());
        assert(rest@.map_values(|s: String| s@) =~= Seq::<Seq<char>>::empty());
    }
    while i < args.len()
        invariant
            i <= args@.len(),
            choice == color_choice_of(args@.subrange(0, i as int)),
            rest@.map_values(|s: String| s@) == positional_args(args@.subrange(0, i as int)),
        decreases args@.len() - i,
    {
        proof {
            assert(args@.subrange(0, i + 1).drop_last() =~= args@.subrange(0, i as int));
            assert(args@.subrange(0, i + 1).last() == args@[i as int]);
        }
        let a = args[i].as_str();
        if str_eq(a, "--color=never") {
            choice = ColorChoice::Never;
        } else if str_eq(a, "--color=always") {
            choice = ColorChoice::Always;
        } else if str_eq(a, "--color=auto") || str_eq(a, "--color") {
            choice = ColorChoice::Auto;
        } else {
            let kept = args[i].clone();
            proof {
                assert(rest@.push(kept).map_values(|s: String| s@) =~= rest@.map_values(
                    |s: String| s@,
                ).push(kept@));
            }
            rest.push(kept);
        }
        i = i + 1;
    }
    proof {
        assert(args@.subrange(0, args@.len() as int) =~= args@);
    }
    (choice, rest)
}

} // verus!
