//! The HTTP front end: the command line, routes, and what each route
//! answers.
use vstd::prelude::*;

use crate::text::{chars_of, extend_chars, has_prefix, lit, seq_equal, slice_vec, starts_with, string_of};

pub mod admin;
pub mod api;
pub mod http;
pub mod policies;
pub mod state;

verus! {

/// Where the configuration and the channel number overrides are read from.
#[derive(Debug, PartialEq, Eq)]
pub struct ServerArgs {
    pub config_path: String,
    pub channel_number_overrides_path: Option<String>,
}

impl Default for ServerArgs {
    fn default() -> (r: Self)
        ensures
            r.config_path@.len() == 0,
            r.channel_number_overrides_path is None,
    {
        ServerArgs { config_path: String::new(), channel_number_overrides_path: None }
    }
}

pub open spec fn usage_spec() -> Seq<char> {
    "usage: atv-iptv-proxy --config PATH [--channel-number-overrides PATH]"@
}

pub fn usage() -> (r: String)
    ensures
        r@ == usage_spec(),
{
    String::from_str("usage: atv-iptv-proxy --config PATH [--channel-number-overrides PATH]")
}

/// The command line from argument `i` on, with the config path and the
/// overrides path found so far: the two paths, or the message to exit with.
pub open spec fn args_spec(
    args: Seq<Seq<char>>,
    i: int,
    config: Option<Seq<char>>,
    overrides: Option<Seq<char>>,
) -> Result<(Seq<char>, Option<Seq<char>>), Seq<char>>
    decreases args.len() - i,
{
    if i < 0 || i >= args.len() {
        match config {
            Some(c) => Ok((c, overrides)),
            None => Err("--config is required\n"@ + usage_spec()),
        }
    } else {
        let arg = args[i];
        if arg == "--config"@ {
            if i + 1 < args.len() {
                args_spec(args, i + 2, Some(args[i + 1]), overrides)
            } else {
                Err("--config requires a path"@)
            }
        } else if arg == "--channel-number-overrides"@ {
            if i + 1 < args.len() {
                args_spec(args, i + 2, config, Some(args[i + 1]))
            } else {
                Err("--channel-number-overrides requires a path"@)
            }
        } else if arg == "--help"@ || arg == "-h"@ {
            Err(usage_spec())
        } else if starts_with(arg, "--config="@) {
            args_spec(args, i + 1, Some(arg.skip("--config="@.len() as int)), overrides)
        } else if starts_with(arg, "--channel-number-overrides="@) {
            args_spec(
                args,
                i + 1,
                config,
                Some(arg.skip("--channel-number-overrides="@.len() as int)),
            )
        } else {
            Err("unknown argument: "@ + arg + "\n"@ + usage_spec())
        }
    }
}

pub open spec fn arg_views(args: Seq<String>) -> Seq<Seq<char>> {
    args.map_values(|a: String| a@)
}

fn opt_string(o: &Option<Vec<char>>) -> (r: Option<String>)
    ensures
        match *o {
            Some(v) => r matches Some(s) && s@ == v@,
            None => r is None,
        },
{
    match o {
        Some(v) => Some(string_of(v.as_slice())),
        None => None,
    }
}

/// Reads the command line (without the program name).
pub fn parse_args(args: Vec<String>) -> (r: Result<ServerArgs, String>)
    ensures
        match args_spec(arg_views(args@), 0, None, None) {
            Ok((c, o)) => r matches Ok(a) && a.config_path@ == c && match o {
                Some(p) => a.channel_number_overrides_path matches Some(x) && x@ == p,
                None => a.channel_number_overrides_path is None,
            },
            Err(m) => r matches Err(x) && x@ == m,
        },
{
    let ghost av = arg_views(args@);
    let mut config: Option<Vec<char>> = None;
    let mut overrides: Option<Vec<char>> = None;
    let config_flag = lit("--config");
    let overrides_flag = lit("--channel-number-overrides");
    let help = lit("--help");
    let h = lit("-h");
    let config_eq = lit("--config=");
    let overrides_eq = lit("--channel-number-overrides=");
    proof {
        reveal_strlit("--config=");
        reveal_strlit("--channel-number-overrides=");
    }
    let n = args.len();
    let mut i: usize = 0;
    while i < n
        invariant
            n == args@.len(),
            av == arg_views(args@),
            i <= n,
            config_flag@ == "--config"@,
            overrides_flag@ == "--channel-number-overrides"@,
            help@ == "--help"@,
            h@ == "-h"@,
            config_eq@ == "--config="@,
            config_eq@.len() == 9,
            overrides_eq@ == "--channel-number-overrides="@,
            overrides_eq@.len() == 27,
            args_spec(av, 0, None, None) == args_spec(
                av,
                i as int,
                match config {
                    Some(v) => Some(v@),
                    None => None,
                },
                match overrides {
                    Some(v) => Some(v@),
                    None => None,
                },
            ),
        decreases n - i,
    {
        let arg = chars_of(args[i].as_str());
        assert(av[i as int] == arg@);
        if seq_equal(arg.as_slice(), config_flag.as_slice()) {
            if i + 1 < n {
                config = Some(chars_of(args[i + 1].as_str()));
                assert(av[i + 1] == args@[i + 1]@);
                i = i + 2;
            } else {
                return Err(String::from_str("--config requires a path"));
            }
        } else if seq_equal(arg.as_slice(), overrides_flag.as_slice()) {
            if i + 1 < n {
                overrides = Some(chars_of(args[i + 1].as_str()));
                assert(av[i + 1] == args@[i + 1]@);
                i = i + 2;
            } else {
                return Err(String::from_str("--channel-number-overrides requires a path"));
            }
        } else if seq_equal(arg.as_slice(), help.as_slice()) || seq_equal(
            arg.as_slice(),
            h.as_slice(),
        ) {
            return Err(usage());
        } else if has_prefix(arg.as_slice(), config_eq.as_slice()) {
            let v = slice_vec(arg.as_slice(), 9, arg.len());
            assert(v@ =~= arg@.skip(9));
            config = Some(v);
            i = i + 1;
        } else if has_prefix(arg.as_slice(), overrides_eq.as_slice()) {
            let v = slice_vec(arg.as_slice(), 27, arg.len());
            assert(v@ =~= arg@.skip(27));
            overrides = Some(v);
            i = i + 1;
        } else {
            let mut msg = lit("unknown argument: ");
            extend_chars(&mut msg, arg.as_slice());
            extend_chars(&mut msg, lit("\n").as_slice());
            extend_chars(&mut msg, chars_of(usage().as_str()).as_slice());
            return Err(string_of(msg.as_slice()));
        }
    }
    match config {
        Some(c) => Ok(
            ServerArgs {
                config_path: string_of(c.as_slice()),
                channel_number_overrides_path: opt_string(&overrides),
            },
        ),
        None => {
            let mut msg = lit("--config is required\n");
            extend_chars(&mut msg, chars_of(usage().as_str()).as_slice());
            Err(string_of(msg.as_slice()))
        },
    }
}

} // verus!
