//! The dispatcher: one pass from the raw process arguments to the single
//! call the program should make — the resolved target and its coerced
//! argument values — or the failure that stops the run.

use vstd::prelude::*;

use crate::binder::{bind_args, lemma_spec_bind_len, spec_bind_args};
use crate::cli::{parse_args, parse_command, spec_parse_args, spec_parse_command};
use crate::coerce::{coerce_all, spec_coerce_all, ArgValue, ValueModel};
use crate::errors::{ErrSpec, FireError};
use crate::registry::{spec_lookup, Registry, SubCommandModel};
use crate::text::{clone_string, views_of};

verus! {

/// The one call a dispatch run resolves to: the qualified target name and
/// its argument values, positionally in declaration order.
#[derive(Debug, PartialEq, Eq)]
pub struct Invocation {
    pub target: String,
    pub args: Vec<ArgValue>,
}

#[verifier::ext_equal]
pub ghost struct InvocationModel {
    pub target: Seq<char>,
    pub args: Seq<ValueModel>,
}

impl View for Invocation {
    type V = InvocationModel;

    open spec fn view(&self) -> InvocationModel {
        InvocationModel { target: self.target@, args: self.args@.map_values(|a: ArgValue| a@) }
    }
}

/// The whole pipeline over the argument views: an empty registry fails at
/// once; then tokenize, parse the flags, look the command up, bind, and
/// coerce, each failure fatal in that order.
pub open spec fn spec_dispatch(
    reg: Seq<(Seq<char>, SubCommandModel)>,
    argv: Seq<Seq<char>>,
) -> Result<InvocationModel, ErrSpec> {
    if reg.len() == 0 {
        Err(ErrSpec::EmptyRegistry)
    } else {
        let pc = spec_parse_command(argv);
        match spec_parse_args(pc.1) {
            Err(t) => Err(ErrSpec::MalformedFlag { token: t }),
            Ok(flags) => match spec_lookup(reg, pc.0) {
                None => Err(ErrSpec::CommandNotFound { command: pc.0 }),
                Some(sub) => match spec_bind_args(sub.args, flags) {
                    Err(nm) => Err(ErrSpec::UnexpectedArgument { name: nm }),
                    Ok(bound) => match spec_coerce_all(sub.args, bound) {
                        Err(e) => Err(e),
                        Ok(vals) => Ok(InvocationModel { target: sub.func, args: vals }),
                    },
                },
            },
        }
    }
}

/// Resolve the raw arguments against the registry into the one call to
/// make, or the failure that aborts the run.
pub fn dispatch(reg: &Registry, argv: Vec<String>) -> (r: Result<Invocation, FireError>)
    ensures
        match r {
            Ok(inv) => spec_dispatch(reg@, views_of(argv@)) == Ok::<_, ErrSpec>(inv@),
            Err(e) => spec_dispatch(reg@, views_of(argv@)) == Err::<InvocationModel, _>(e@),
        },
{
    let ghost vs = views_of(argv@);
    if reg.len() == 0 {
        return Err(FireError::EmptyRegistry);
    }
    let (cmd, rest) = parse_command(argv);
    let ghost pc = spec_parse_command(vs);
    match parse_args(rest) {
        Err(e) => Err(e),
        Ok(flags) => {
            match reg.get(cmd.as_str()) {
                None => Err(FireError::CommandNotFound { command: cmd }),
                Some(sub) => {
                    let ghost subm = sub@;
                    match bind_args(&sub.args, flags) {
                        Err(e) => Err(e),
                        Ok(bound) => {
                            proof {
                                lemma_spec_bind_len(subm.args, spec_parse_args(pc.1)->Ok_0);
                                assert(views_of(bound@).len() == bound@.len());
                                assert(subm.args.len() == sub.args@.len());
                            }
                            match coerce_all(&sub.args, &bound) {
                                Err(e) => Err(e),
                                Ok(vals) => {
                                    proof {
                                        assert(bound@.map_values(|b: String| b@) =~= views_of(
                                            bound@,
                                        ));
                                    }
                                    let inv = Invocation {
                                        target: clone_string(&sub.func),
                                        args: vals,
                                    };
                                    proof {
                                        assert(inv@ =~= (InvocationModel {
                                            target: subm.func,
                                            args: spec_coerce_all(
                                                subm.args,
                                                views_of(bound@),
                                            )->Ok_0,
                                        }));
                                    }
                                    Ok(inv)
                                },
                            }
                        },
                    }
                },
            }
        },
    }
}

} // verus!
