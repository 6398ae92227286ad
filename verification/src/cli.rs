//! The argument tokenizer and the flag parser. The tokenizer takes the first
//! token as the command name unless it is absent or starts with `-`; the
//! flag parser demands `--name=value` with exactly one `=` after the prefix.

use vstd::prelude::*;
use vstd::string::StrSliceExecFns;

use crate::errors::{ErrSpec, FireError};
use crate::text::{clone_string, find_char, find_in, pair_views, split_once_at, string_of, views_of};

verus! {

/// Whether a token starts with `-`.
pub open spec fn starts_dash(s: Seq<char>) -> bool {
    s.len() > 0 && s[0] == '-'
}

/// The command name and the remaining tokens.
pub open spec fn spec_parse_command(args: Seq<Seq<char>>) -> (Seq<char>, Seq<Seq<char>>) {
    if args.len() == 0 {
        (Seq::empty(), args)
    } else if !starts_dash(args[0]) {
        (args[0], args.drop_first())
    } else {
        (Seq::empty(), args)
    }
}

/// Split the raw arguments into the command name and the remaining tokens:
/// the first token is consumed as the command name unless the sequence is
/// empty or that token starts with `-`, in which case the name is `""` and
/// every token remains.
pub fn parse_command(args: Vec<String>) -> (r: (String, Vec<String>))
    ensures
        r.0@ == spec_parse_command(views_of(args@)).0,
        views_of(r.1@) == spec_parse_command(views_of(args@)).1,
{
    let mut rest = args;
    let ghost vs = views_of(rest@);
    if rest.len() == 0 {
        let name = String::new();
        proof {
            assert(name@ =~= Seq::<char>::empty());
        }
        return (name, rest);
    }
    let dashed = rest[0].as_str().unicode_len() > 0 && rest[0].as_str().get_char(0) == '-';
    proof {
        assert(vs[0] == rest@[0]@);
        assert(dashed == starts_dash(vs[0]));
    }
    if !dashed {
        let ghost before = rest@;
        let name = rest.remove(0);
        proof {
            assert(before.remove(0) =~= before.drop_first());
            assert(views_of(rest@) =~= vs.drop_first());
        }
        return (name, rest);
    }
    let name = String::new();
    proof {
        assert(name@ =~= Seq::<char>::empty());
    }
    (name, rest)
}

/// The name/value split of one flag token; `None` when the token is
/// malformed: no `--` prefix, or not exactly one `=` after it.
pub open spec fn spec_parse_arg(t: Seq<char>) -> Option<(Seq<char>, Seq<char>)> {
    if !(t.len() >= 2 && t[0] == '-' && t[1] == '-') {
        None
    } else {
        let body = t.skip(2);
        let i = find_char(body, '=');
        if i < 0 {
            None
        } else if find_char(body.skip(i + 1), '=') >= 0 {
            None
        } else {
            Some((body.take(i), body.skip(i + 1)))
        }
    }
}

/// The text a malformed-flag error names: the whole token when the `--`
/// prefix is missing, the stripped remainder otherwise.
pub open spec fn spec_arg_err_token(t: Seq<char>) -> Seq<char> {
    if !(t.len() >= 2 && t[0] == '-' && t[1] == '-') {
        t
    } else {
        t.skip(2)
    }
}

/// Parse one `--name=value` token into its name and raw value.
pub fn parse_arg(arg: String) -> (r: Result<(String, String), FireError>)
    ensures
        match r {
            Ok(f) => spec_parse_arg(arg@) == Some((f.0@, f.1@)),
            Err(e) => spec_parse_arg(arg@) is None && e@ == (ErrSpec::MalformedFlag {
                token: spec_arg_err_token(arg@),
            }),
        },
{
    let n = arg.as_str().unicode_len();
    let prefixed = n >= 2 && arg.as_str().get_char(0) == '-' && arg.as_str().get_char(1) == '-';
    if !prefixed {
        return Err(FireError::MalformedFlag { token: arg });
    }
    let body = arg.as_str().substring_char(2, n);
    proof {
        assert(body@ =~= arg@.skip(2));
    }
    match split_once_at(body, '=') {
        None => Err(FireError::MalformedFlag { token: string_of(body) }),
        Some((name, value)) => {
            match find_in(value, '=') {
                Some(_) => Err(FireError::MalformedFlag { token: string_of(body) }),
                None => Ok((string_of(name), string_of(value))),
            }
        },
    }
}

/// A prefix of already-parsed flags, glued onto the rest.
pub open spec fn prepend_flags(
    prefix: Seq<(Seq<char>, Seq<char>)>,
    r: Result<Seq<(Seq<char>, Seq<char>)>, Seq<char>>,
) -> Result<Seq<(Seq<char>, Seq<char>)>, Seq<char>> {
    match r {
        Err(t) => Err(t),
        Ok(ps) => Ok(prefix + ps),
    }
}

/// All flag tokens parsed in input order; the first malformed token fails
/// the parse, and the error carries its text.
pub open spec fn spec_parse_args(ts: Seq<Seq<char>>) -> Result<
    Seq<(Seq<char>, Seq<char>)>,
    Seq<char>,
>
    decreases ts.len(),
{
    if ts.len() == 0 {
        Ok(Seq::empty())
    } else {
        match spec_parse_arg(ts[0]) {
            None => Err(spec_arg_err_token(ts[0])),
            Some(p) => match spec_parse_args(ts.drop_first()) {
                Err(t) => Err(t),
                Ok(ps) => Ok(seq![p] + ps),
            },
        }
    }
}

/// Parse every token as a flag, keeping input order; fail on the first
/// malformed token.
pub fn parse_args(args: Vec<String>) -> (r: Result<Vec<(String, String)>, FireError>)
    ensures
        match r {
            Ok(v) => spec_parse_args(views_of(args@)) == Ok::<_, Seq<char>>(pair_views(v@)),
            Err(e) => spec_parse_args(views_of(args@)) is Err && e@ == (ErrSpec::MalformedFlag {
                token: spec_parse_args(views_of(args@))->Err_0,
            }),
        },
{
    let ghost vs = views_of(args@);
    let mut out: Vec<(String, String)> = Vec::new();
    let n = args.len();
    let mut i: usize = 0;
    proof {
        assert(pair_views(out@) =~= Seq::<(Seq<char>, Seq<char>)>::empty());
        assert(vs.skip(0) =~= vs);
        assert(forall|r: Result<Seq<(Seq<char>, Seq<char>)>, Seq<char>>| prepend_flags(
            Seq::<(Seq<char>, Seq<char>)>::empty(),
            r,
        ) == r);
    }
    while i < n
        invariant
            0 <= i <= n,
            n == args@.len(),
            vs == views_of(args@),
            vs.len() == n,
            spec_parse_args(vs) == prepend_flags(pair_views(out@), spec_parse_args(
                vs.skip(i as int),
            )),
        decreases n - i,
    {
        let ghost pre = pair_views(out@);
        proof {
            assert(vs.skip(i as int)[0] == vs[i as int]);
            assert(vs[i as int] == args@[i as int]@);
            assert(vs.skip(i as int).drop_first() =~= vs.skip(i as int + 1));
        }
        match parse_arg(clone_string(&args[i])) {
            Err(e) => {
                return Err(e);
            },
            Ok(f) => {
                let ghost fv = (f.0@, f.1@);
                out.push(f);
                proof {
                    assert(pair_views(out@) =~= pre.push(fv));
                    if spec_parse_args(vs.skip(i as int + 1)) is Ok {
                        let ps = spec_parse_args(vs.skip(i as int + 1))->Ok_0;
                        assert(pre + (seq![fv] + ps) =~= pre.push(fv) + ps);
                    }
                }
                i = i + 1;
            },
        }
    }
    proof {
        assert(vs.skip(n as int).len() == 0);
        assert(spec_parse_args(vs.skip(n as int)) == Ok::<_, Seq<char>>(
            Seq::<(Seq<char>, Seq<char>)>::empty(),
        ));
        assert(pair_views(out@) + Seq::<(Seq<char>, Seq<char>)>::empty() =~= pair_views(out@));
    }
    Ok(out)
}

} // verus!
