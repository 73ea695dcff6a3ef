//! Command-line grammar: one required positional project-root path, an
//! optional `-j`/`--json` inline JSON string, an optional `-f`/`--file`
//! input path.  The caller (the binary) collects the raw tokens; this
//! module only decides what they mean.

use vstd::prelude::*;
use crate::order::views;
use crate::template::opt_view;
use crate::text::bytes_eq;

verus! {

/// The parsed command line at spec level.
pub struct CliState {
    pub path: Option<Seq<u8>>,
    pub json: Option<Seq<u8>>,
    pub file: Option<Seq<u8>>,
}

/// The parsed command line: root of the project directory, and optionally
/// an inline JSON string or an input file path in place of stdin.
pub struct Cli {
    pub path: Vec<u8>,
    pub json: Option<Vec<u8>>,
    pub file: Option<Vec<u8>>,
}

/// `-j`.
pub open spec fn json_flag_short() -> Seq<u8> {
    seq![45u8, 106u8]
}

/// `--json`.
pub open spec fn json_flag_long() -> Seq<u8> {
    seq![45u8, 45u8, 106u8, 115u8, 111u8, 110u8]
}

/// `-f`.
pub open spec fn file_flag_short() -> Seq<u8> {
    seq![45u8, 102u8]
}

/// `--file`.
pub open spec fn file_flag_long() -> Seq<u8> {
    seq![45u8, 45u8, 102u8, 105u8, 108u8, 101u8]
}

pub open spec fn is_json_flag(t: Seq<u8>) -> bool {
    t == json_flag_short() || t == json_flag_long()
}

pub open spec fn is_file_flag(t: Seq<u8>) -> bool {
    t == file_flag_short() || t == file_flag_long()
}

/// Begins with `-`, so it cannot be the positional path.
pub open spec fn is_flag_like(t: Seq<u8>) -> bool {
    t.len() > 0 && t[0] == 45
}

/// Fold the tokens into the parsed state: a flag takes the following token
/// as its value; anything else flag-like is unknown; the one remaining kind
/// of token is the positional path.  `None` on an unknown flag, a missing
/// value, or a repeated flag or path.
pub open spec fn spec_parse_args(args: Seq<Seq<u8>>, st: CliState) -> Option<CliState>
    decreases args.len(),
{
    if args.len() == 0 {
        Some(st)
    } else if is_json_flag(args[0]) {
        if args.len() < 2 || st.json is Some {
            None
        } else {
            spec_parse_args(
                args.skip(2),
                CliState { path: st.path, json: Some(args[1]), file: st.file },
            )
        }
    } else if is_file_flag(args[0]) {
        if args.len() < 2 || st.file is Some {
            None
        } else {
            spec_parse_args(
                args.skip(2),
                CliState { path: st.path, json: st.json, file: Some(args[1]) },
            )
        }
    } else if is_flag_like(args[0]) {
        None
    } else if st.path is Some {
        None
    } else {
        spec_parse_args(
            args.skip(1),
            CliState { path: Some(args[0]), json: st.json, file: st.file },
        )
    }
}

/// The empty initial state.
pub open spec fn cli_state_init() -> CliState {
    CliState { path: None, json: None, file: None }
}

impl Cli {
    /// Parse the command-line tokens, program name excluded.  Returns `None`
    /// exactly when the tokens do not fit the grammar or name no path.
    #[verifier::loop_isolation(false)]
    pub fn args(argv: Vec<Vec<u8>>) -> (r: Option<Cli>)
        ensures
            match r {
                Some(c) => spec_parse_args(views(argv@), cli_state_init()) == Some(
                    CliState {
                        path: Some(c.path@),
                        json: opt_view(c.json),
                        file: opt_view(c.file),
                    },
                ),
                None => spec_parse_args(views(argv@), cli_state_init()) is None
                    || spec_parse_args(views(argv@), cli_state_init())->Some_0.path is None,
            },
    {
        let ghost av = views(argv@);
        let mut path: Option<Vec<u8>> = None;
        let mut json: Option<Vec<u8>> = None;
        let mut file: Option<Vec<u8>> = None;
        let mut i: usize = 0;
        proof {
            assert(av.skip(0) =~= av);
        }
        let jf_s: Vec<u8> = vec![45u8, 106u8];
        let jf_l: Vec<u8> = vec![45u8, 45u8, 106u8, 115u8, 111u8, 110u8];
        let ff_s: Vec<u8> = vec![45u8, 102u8];
        let ff_l: Vec<u8> = vec![45u8, 45u8, 102u8, 105u8, 108u8, 101u8];
        proof {
            assert(jf_s@ =~= json_flag_short());
            assert(jf_l@ =~= json_flag_long());
            assert(ff_s@ =~= file_flag_short());
            assert(ff_l@ =~= file_flag_long());
        }
        while i < argv.len()
            invariant
                i <= argv.len(),
                jf_s@ == json_flag_short(),
                jf_l@ == json_flag_long(),
                ff_s@ == file_flag_short(),
                ff_l@ == file_flag_long(),
                spec_parse_args(av, cli_state_init()) == spec_parse_args(
                    av.skip(i as int),
                    CliState { path: opt_view(path), json: opt_view(json), file: opt_view(file) },
                ),
            decreases argv.len() - i,
        {
            let ghost tail = av.skip(i as int);
            proof {
                assert(tail[0] == av[i as int]);
                assert(av[i as int] == argv@[i as int]@);
                assert(tail.drop_first() =~= av.skip(i + 1));
                if i + 1 < argv.len() {
                    assert(tail[1] == av[i + 1]);
                    assert(tail.drop_first().drop_first() =~= av.skip(i + 2));
                    assert(tail.skip(2) =~= av.skip(i + 2));
                }
            }
            let tok = &argv[i];
            if bytes_eq(tok, &jf_s) || bytes_eq(tok, &jf_l) {
                if i + 1 >= argv.len() || json.is_some() {
                    return None;
                }
                json = Some(crate::text::copy_bytes(&argv[i + 1]));
                i += 2;
            } else if bytes_eq(tok, &ff_s) || bytes_eq(tok, &ff_l) {
                if i + 1 >= argv.len() || file.is_some() {
                    return None;
                }
                file = Some(crate::text::copy_bytes(&argv[i + 1]));
                i += 2;
            } else if tok.len() > 0 && tok[0] == 45 {
                return None;
            } else {
                if path.is_some() {
                    return None;
                }
                path = Some(crate::text::copy_bytes(tok));
                i += 1;
            }
        }
        proof {
            assert(av.skip(argv@.len() as int) =~= Seq::<Seq<u8>>::empty());
        }
        match path {
            Some(p) => Some(Cli { path: p, json, file }),
            None => None,
        }
    }
}

} // verus!
