//! The command line of the solver: the options it accepts, and the
//! configuration that a command line asks for.

use vstd::prelude::*;
use vstd::string::*;

use crate::config::{
    bool_option_name, bool_option_names, config_from_options, option_chars, option_values,
    options_result, settings_result, flags_result, then_numeric, then_backend, then_linear_mode, Config, ConfigArgError, ParsedOptions, NUM_BOOL_OPTIONS,
};

verus! {

/// What `getopts` makes of the arguments `args`, given the flags `flags`
/// (short and long name) and the options with a value `options` (long
/// name): whether each flag was given and the value of each option, or
/// the message of the failure.
pub uninterp spec fn spec_command_line(
    flags: Seq<(Seq<char>, Seq<char>)>,
    options: Seq<Seq<char>>,
    args: Seq<Seq<char>>,
) -> Result<(Seq<bool>, Seq<Option<Seq<char>>>), Seq<char>>;

/// The names of flags, as characters.
pub open spec fn flag_names_view(flags: Seq<(String, String)>) -> Seq<(Seq<char>, Seq<char>)> {
    flags.map_values(|p: (String, String)| (p.0@, p.1@))
}

/// A short option name that `getopts` takes: none, or one ASCII character.
pub open spec fn valid_short_name(s: Seq<char>) -> bool {
    s.len() == 0 || (s.len() == 1 && (s[0] as u32) < 128)
}

/// A long option name that `getopts` takes and looks up as a long name.
pub open spec fn valid_long_name(s: Seq<char>) -> bool {
    s.len() >= 2
}

/// Parses `args` with `getopts::Options::parse`, for the flags `flags`
/// (`optflag` with their short and long names) and the options with a
/// value `options` (`optopt` with their long names), and reads back with
/// `opt_present` whether each flag was given and with `opt_str` the value
/// of each option. Claimed: the result is what `spec_command_line` names
/// for these names and arguments, and has one entry per flag and per
/// option. The names are required to be ones that `getopts` accepts
/// (`validate_names` panics on others).
#[verifier::external_body]
fn parse_command_line(flags: &Vec<(String, String)>, options: &Vec<String>, args: &Vec<String>) -> (r: Result<(Vec<bool>, Vec<Option<String>>), String>)
    requires
        forall|i: int| 0 <= i < flags@.len() ==> valid_short_name(#[trigger] flags@[i].0@) && valid_long_name(flags@[i].1@),
        forall|i: int| 0 <= i < options@.len() ==> valid_long_name(#[trigger] options@[i]@),
    ensures
        match (r, spec_command_line(flag_names_view(flags@), options.deep_view(), args.deep_view())) {
            (Ok((p, v)), Ok((sp, sv))) => p@ == sp && v.deep_view() == sv,
            (Err(m), Err(sm)) => m@ == sm,
            _ => false,
        },
        r matches Ok((p, v)) ==> p@.len() == flags@.len() && v@.len() == options@.len(),
{
    let mut opts = getopts::Options::new();
    for (short, long) in flags.iter() {
        opts.optflag(short, long, "");
    }
    for long in options.iter() {
        opts.optopt("", long, "", "");
    }
    match opts.parse(args) {
        Ok(m) => Ok((
            flags.iter().map(|(_, long)| m.opt_present(long)).collect(),
            options.iter().map(|long| m.opt_str(long)).collect(),
        )),
        Err(f) => Err(f.to_string()),
    }
}

/// The flags of the command line: `--enable-NAME` and `--disable-NAME`
/// for each on/off option in turn, then `-h` / `--help`.
pub open spec fn command_line_flags() -> Seq<(Seq<char>, Seq<char>)> {
    Seq::new(
        (2 * NUM_BOOL_OPTIONS + 1) as nat,
        |k: int|
            if k < 2 * NUM_BOOL_OPTIONS {
                (
                    Seq::<char>::empty(),
                    (if k % 2 == 0 { "enable-"@ } else { "disable-"@ }) + bool_option_name((k / 2) as usize),
                )
            } else {
                ("h"@, "help"@)
            },
    )
}

/// The index of the help flag among `command_line_flags`.
pub open spec fn help_flag() -> int {
    2 * NUM_BOOL_OPTIONS
}

/// The options with a value, in the order of `settings_result`.
pub open spec fn command_line_options() -> Seq<Seq<char>> {
    seq![
        "domain-product-threshold"@,
        "native-linear-encoding-terms"@,
        "native-linear-encoding-domain-product"@,
        "backend"@,
        "order-encoding-linear-mode"@,
    ]
}

/// Whether `--enable-NAME` was given, for each on/off option.
pub open spec fn enabled_flags(present: Seq<bool>) -> Seq<bool> {
    Seq::new(NUM_BOOL_OPTIONS as nat, |i: int| present[2 * i])
}

/// Whether `--disable-NAME` was given, for each on/off option.
pub open spec fn disabled_flags(present: Seq<bool>) -> Seq<bool> {
    Seq::new(NUM_BOOL_OPTIONS as nat, |i: int| present[2 * i + 1])
}

/// The value given to the option that `e` is about, where there is one.
pub open spec fn offending_value(e: ConfigArgError, values: Seq<Option<Seq<char>>>) -> Option<Seq<char>> {
    match e {
        ConfigArgError::ConflictingOptions(_) => None,
        ConfigArgError::ParseFailed(idx) => values[idx as int],
        ConfigArgError::UnknownBackend => values[3],
        ConfigArgError::UnknownLinearMode => values[4],
    }
}

/// Why a command line gives no configuration.
#[derive(Clone, Debug)]
pub enum CommandLineError {
    /// The arguments do not fit the accepted options; the message says how.
    Malformed(String),
    /// The options given ask for no configuration; with the value given to
    /// the option at fault, where there is one.
    Invalid(ConfigArgError, Option<Vec<char>>),
}

/// The configuration that the parsed command line asks for on top of
/// `base`: `present` says which of `command_line_flags` were given and
/// `values` holds the values of `command_line_options`. `Ok(None)` where
/// help was asked for.
pub fn config_from_matches(base: Config, present: &Vec<bool>, values: &Vec<Option<String>>) -> (r: Result<Option<Config>, CommandLineError>)
    requires
        present@.len() == 2 * NUM_BOOL_OPTIONS + 1,
        values@.len() == 5,
    ensures
        present@[help_flag()] ==> r matches Ok(None),
        !present@[help_flag()] ==> match settings_result(base, enabled_flags(present@), disabled_flags(present@), values.deep_view()) {
            Ok(c) => r == Ok::<Option<Config>, CommandLineError>(Some(c)),
            Err(e) => r matches Err(CommandLineError::Invalid(e2, v)) && e2 == e && option_chars(v) == offending_value(e, values.deep_view()),
        },
{
    if present[2 * NUM_BOOL_OPTIONS] {
        return Ok(None);
    }
    let mut enable: Vec<bool> = Vec::new();
    let mut disable: Vec<bool> = Vec::new();
    let mut i: usize = 0;
    while i < NUM_BOOL_OPTIONS
        invariant
            i <= NUM_BOOL_OPTIONS,
            present@.len() == 2 * NUM_BOOL_OPTIONS + 1,
            enable@ == enabled_flags(present@).take(i as int),
            disable@ == disabled_flags(present@).take(i as int),
        decreases NUM_BOOL_OPTIONS - i,
    {
        enable.push(present[2 * i]);
        disable.push(present[2 * i + 1]);
        proof {
            assert(enable@ =~= enabled_flags(present@).take(i + 1));
            assert(disable@ =~= disabled_flags(present@).take(i + 1));
        }
        i += 1;
    }
    proof {
        assert(enable@ =~= enabled_flags(present@));
        assert(disable@ =~= disabled_flags(present@));
    }
    let opts = ParsedOptions {
        enable,
        disable,
        domain_product_threshold: optional_chars(&values[0]),
        native_linear_encoding_terms: optional_chars(&values[1]),
        native_linear_encoding_domain_product: optional_chars(&values[2]),
        backend: optional_chars(&values[3]),
        order_encoding_linear_mode: optional_chars(&values[4]),
    };
    proof {
        assert(option_values(opts) =~= values.deep_view());
    }
    let res = config_from_options(base, &opts);
    proof {
        assert(options_result(base, opts) == settings_result(base, enabled_flags(present@), disabled_flags(present@), values.deep_view()));
        lemma_settings_error_index(base, enabled_flags(present@), disabled_flags(present@), values.deep_view());
    }
    match res {
        Ok(c) => Ok(Some(c)),
        Err(e) => {
            let v = match e {
                ConfigArgError::ConflictingOptions(_) => None,
                ConfigArgError::ParseFailed(idx) => if idx == 0 {
                    opts.domain_product_threshold
                } else if idx == 1 {
                    opts.native_linear_encoding_terms
                } else {
                    opts.native_linear_encoding_domain_product
                },
                ConfigArgError::UnknownBackend => opts.backend,
                ConfigArgError::UnknownLinearMode => opts.order_encoding_linear_mode,
            };
            Err(CommandLineError::Invalid(e, v))
        },
    }
}

proof fn lemma_settings_error_index(base: Config, enable: Seq<bool>, disable: Seq<bool>, values: Seq<Option<Seq<char>>>)
    ensures
        settings_result(base, enable, disable, values) matches Err(ConfigArgError::ParseFailed(idx)) ==> idx < 3,
{
    lemma_flags_error_kind(base, enable, disable, NUM_BOOL_OPTIONS as int);
    lemma_options_error_index(flags_result(base, enable, disable, NUM_BOOL_OPTIONS as int), values);
}

proof fn lemma_options_error_index(r0: Result<Config, ConfigArgError>, values: Seq<Option<Seq<char>>>)
    requires
        r0 is Err ==> r0->Err_0 is ConflictingOptions,
    ensures
        then_linear_mode(then_backend(then_numeric(then_numeric(then_numeric(r0, values[0], 0), values[1], 1), values[2], 2), values[3]), values[4])
            matches Err(ConfigArgError::ParseFailed(idx)) ==> idx < 3,
{
}

proof fn lemma_flags_error_kind(base: Config, enable: Seq<bool>, disable: Seq<bool>, k: int)
    ensures
        flags_result(base, enable, disable, k) is Err ==> flags_result(base, enable, disable, k)->Err_0 is ConflictingOptions,
    decreases k,
{
    if k > 0 {
        lemma_flags_error_kind(base, enable, disable, k - 1);
    }
}

/// The characters of `s`.
fn string_chars(s: &String) -> (r: Vec<char>)
    ensures
        r@ == s@,
{
    let t = s.as_str();
    let n = t.unicode_len();
    let mut r: Vec<char> = Vec::new();
    let mut i: usize = 0;
    while i < n
        invariant
            i <= n,
            n == t@.len(),
            t@ == s@,
            r@ == s@.take(i as int),
        decreases n - i,
    {
        r.push(t.get_char(i));
        proof {
            assert(r@ =~= s@.take(i + 1));
        }
        i += 1;
    }
    proof {
        assert(r@ =~= s@);
    }
    r
}

/// The characters of an optional string.
fn optional_chars(v: &Option<String>) -> (r: Option<Vec<char>>)
    ensures
        option_chars(r) == v.deep_view(),
{
    match v {
        Some(s) => Some(string_chars(s)),
        None => None,
    }
}

/// The flags of the command line, as `command_line_flags` lists them.
fn command_line_flag_names() -> (r: Vec<(String, String)>)
    ensures
        r@.len() == 2 * NUM_BOOL_OPTIONS + 1,
        flag_names_view(r@) == command_line_flags(),
        forall|i: int| 0 <= i < r@.len() ==> valid_short_name(#[trigger] r@[i].0@) && valid_long_name(r@[i].1@),
{
    let names = bool_option_names();
    let mut r: Vec<(String, String)> = Vec::new();
    proof {
        reveal_strlit("enable-");
        reveal_strlit("disable-");
        reveal_strlit("h");
        reveal_strlit("help");
    }
    let mut i: usize = 0;
    while i < NUM_BOOL_OPTIONS
        invariant
            i <= NUM_BOOL_OPTIONS,
            names@.len() == NUM_BOOL_OPTIONS,
            forall|j: int| 0 <= j < NUM_BOOL_OPTIONS ==> (#[trigger] names@[j]).0@ == bool_option_name(j as usize),
            r@.len() == 2 * i,
            forall|k: int| 0 <= k < 2 * i ==> flag_names_view(r@)[k] == command_line_flags()[k],
            forall|k: int| 0 <= k < r@.len() ==> valid_short_name(#[trigger] r@[k].0@) && valid_long_name(r@[k].1@),
            "enable-"@.len() == 7,
            "disable-"@.len() == 8,
        decreases NUM_BOOL_OPTIONS - i,
    {
        let name = names[i].0;
        let enable = String::from_str("enable-").concat(name);
        let disable = String::from_str("disable-").concat(name);
        r.push((String::new(), enable));
        r.push((String::new(), disable));
        proof {
            assert(names@[i as int].0@ == bool_option_name(i));
            assert(((2 * i) as int) / 2 == i);
            assert(((2 * i + 1) as int) / 2 == i);
            assert(((2 * i) as int) % 2 == 0);
            assert(((2 * i + 1) as int) % 2 == 1);
            assert forall|k: int| 0 <= k < 2 * (i + 1) implies flag_names_view(r@)[k] == command_line_flags()[k] by {
                if k >= 2 * i {
                    assert(r@[k].0@ == Seq::<char>::empty());
                }
            }
        }
        i += 1;
    }
    r.push((String::from_str("h"), String::from_str("help")));
    proof {
        assert(flag_names_view(r@) =~= command_line_flags());
    }
    r
}

/// The options with a value, as `command_line_options` lists them.
fn command_line_option_names() -> (r: Vec<String>)
    ensures
        r@.len() == 5,
        r.deep_view() == command_line_options(),
        forall|i: int| 0 <= i < r@.len() ==> valid_long_name(#[trigger] r@[i]@),
{
    proof {
        reveal_strlit("domain-product-threshold");
        reveal_strlit("native-linear-encoding-terms");
        reveal_strlit("native-linear-encoding-domain-product");
        reveal_strlit("backend");
        reveal_strlit("order-encoding-linear-mode");
    }
    let mut r: Vec<String> = Vec::new();
    r.push(String::from_str("domain-product-threshold"));
    r.push(String::from_str("native-linear-encoding-terms"));
    r.push(String::from_str("native-linear-encoding-domain-product"));
    r.push(String::from_str("backend"));
    r.push(String::from_str("order-encoding-linear-mode"));
    proof {
        assert(r.deep_view() =~= command_line_options());
    }
    r
}

/// The configuration that the command-line arguments `args` (without the
/// program's name) ask for on top of `base`, as the solver's command line
/// reads them: `Ok(None)` where help was asked for, `Malformed` where the
/// arguments do not fit the accepted options.
pub fn config_from_args(base: Config, args: &Vec<String>) -> (r: Result<Option<Config>, CommandLineError>)
    ensures
        match spec_command_line(command_line_flags(), command_line_options(), args.deep_view()) {
            Err(msg) => r matches Err(CommandLineError::Malformed(m)) && m@ == msg,
            Ok((present, values)) => if present[help_flag()] {
                r matches Ok(None)
            } else {
                match settings_result(base, enabled_flags(present), disabled_flags(present), values) {
                    Ok(c) => r == Ok::<Option<Config>, CommandLineError>(Some(c)),
                    Err(e) => r matches Err(CommandLineError::Invalid(e2, v)) && e2 == e && option_chars(v) == offending_value(e, values),
                }
            },
        },
{
    let flags = command_line_flag_names();
    let options = command_line_option_names();
    assert forall|i: int| 0 <= i < flags@.len() implies valid_short_name(#[trigger] flags@[i].0@) && valid_long_name(flags@[i].1@) by {
        assert(valid_short_name(flags@[i].0@));
    }
    match parse_command_line(&flags, &options, args) {
        Err(m) => Err(CommandLineError::Malformed(m)),
        Ok((present, values)) => config_from_matches(base, &present, &values),
    }
}

} // verus!
