//! The argument binder. For each declared parameter, in declaration order,
//! the first remaining flag with that name is consumed and its raw value
//! bound; a parameter without a flag binds the sentinel. Any flag left over
//! afterwards is an unexpected argument and fails the bind.

use vstd::prelude::*;
use vstd::string::StringExecFns;

use crate::errors::{ErrSpec, FireError};
use crate::registry::{ParamDef, ParamModel};
use crate::text::{clone_string, pair_views, views_of};

verus! {

/// The reserved marker bound in place of a value that was not supplied.
pub open spec fn sentinel() -> Seq<char> {
    "__FIRE_THIS_IS_NONE"@
}

/// The sentinel as an owned string.
pub fn sentinel_string() -> (r: String)
    ensures
        r@ == sentinel(),
{
    String::from_str("__FIRE_THIS_IS_NONE")
}

/// Index of the first flag with the given name, or -1.
pub open spec fn find_flag(flags: Seq<(Seq<char>, Seq<char>)>, name: Seq<char>) -> int
    decreases flags.len(),
{
    if flags.len() == 0 {
        -1
    } else if flags[0].0 == name {
        0
    } else {
        let r = find_flag(flags.drop_first(), name);
        if r < 0 {
            -1
        } else {
            r + 1
        }
    }
}

pub proof fn lemma_find_flag(flags: Seq<(Seq<char>, Seq<char>)>, name: Seq<char>)
    ensures
        find_flag(flags, name) >= 0 ==> find_flag(flags, name) < flags.len() && flags[find_flag(
            flags,
            name,
        )].0 == name,
        find_flag(flags, name) >= 0 ==> forall|j: int|
            0 <= j < find_flag(flags, name) ==> (#[trigger] flags[j]).0 != name,
        find_flag(flags, name) < 0 ==> forall|j: int|
            0 <= j < flags.len() ==> (#[trigger] flags[j]).0 != name,
    decreases flags.len(),
{
    if flags.len() == 0 {
    } else if flags[0].0 == name {
    } else {
        lemma_find_flag(flags.drop_first(), name);
        assert(forall|j: int| 1 <= j < flags.len() ==> flags[j] == flags.drop_first()[j - 1]);
    }
}

pub proof fn lemma_find_flag_is(flags: Seq<(Seq<char>, Seq<char>)>, name: Seq<char>, i: int)
    requires
        0 <= i < flags.len(),
        flags[i].0 == name,
        forall|j: int| 0 <= j < i ==> (#[trigger] flags[j]).0 != name,
    ensures
        find_flag(flags, name) == i,
    decreases flags.len(),
{
    if i > 0 {
        assert(forall|j: int| 0 <= j < i - 1 ==> flags.drop_first()[j] == flags[j + 1]);
        lemma_find_flag_is(flags.drop_first(), name, i - 1);
    }
}

pub proof fn lemma_find_flag_none(flags: Seq<(Seq<char>, Seq<char>)>, name: Seq<char>)
    requires
        forall|j: int| 0 <= j < flags.len() ==> (#[trigger] flags[j]).0 != name,
    ensures
        find_flag(flags, name) == -1,
    decreases flags.len(),
{
    if flags.len() > 0 {
        assert(forall|j: int| 0 <= j < flags.drop_first().len() ==> flags.drop_first()[j]
            == flags[j + 1]);
        lemma_find_flag_none(flags.drop_first(), name);
    }
}

/// The binder's pass: the bound raw values, one per parameter in order, and
/// the flags that no parameter consumed.
pub open spec fn spec_bind(params: Seq<ParamModel>, flags: Seq<(Seq<char>, Seq<char>)>) -> (
    Seq<Seq<char>>,
    Seq<(Seq<char>, Seq<char>)>,
)
    decreases params.len(),
{
    if params.len() == 0 {
        (Seq::empty(), flags)
    } else {
        let i = find_flag(flags, params[0].name);
        if i < 0 {
            let rec = spec_bind(params.drop_first(), flags);
            (seq![sentinel()] + rec.0, rec.1)
        } else {
            let rec = spec_bind(params.drop_first(), flags.remove(i));
            (seq![flags[i].1] + rec.0, rec.1)
        }
    }
}

pub proof fn lemma_spec_bind_len(params: Seq<ParamModel>, flags: Seq<(Seq<char>, Seq<char>)>)
    ensures
        spec_bind(params, flags).0.len() == params.len(),
        spec_bind(params, flags).1.len() <= flags.len(),
    decreases params.len(),
{
    if params.len() > 0 {
        let i = find_flag(flags, params[0].name);
        if i < 0 {
            lemma_spec_bind_len(params.drop_first(), flags);
        } else {
            lemma_find_flag(flags, params[0].name);
            lemma_spec_bind_len(params.drop_first(), flags.remove(i));
        }
    }
}

/// The whole bind: the bound values when every flag was consumed, otherwise
/// the name of the first flag left over.
pub open spec fn spec_bind_args(
    params: Seq<ParamModel>,
    flags: Seq<(Seq<char>, Seq<char>)>,
) -> Result<Seq<Seq<char>>, Seq<char>> {
    let b = spec_bind(params, flags);
    if b.1.len() == 0 {
        Ok(b.0)
    } else {
        Err(b.1[0].0)
    }
}

/// Index of the first flag whose name matches, if any.
fn find_flag_in(flags: &Vec<(String, String)>, name: &String) -> (r: Option<usize>)
    ensures
        match r {
            Some(i) => find_flag(pair_views(flags@), name@) == i as int,
            None => find_flag(pair_views(flags@), name@) == -1,
        },
{
    let n = flags.len();
    let mut i: usize = 0;
    while i < n
        invariant
            0 <= i <= n,
            n == flags@.len(),
            forall|j: int| 0 <= j < i ==> (#[trigger] pair_views(flags@)[j]).0 != name@,
        decreases n - i,
    {
        if flags[i].0 == *name {
            proof {
                assert(pair_views(flags@)[i as int].0 == name@);
                lemma_find_flag_is(pair_views(flags@), name@, i as int);
            }
            return Some(i);
        }
        proof {
            assert(pair_views(flags@)[i as int].0 == flags@[i as int].0@);
        }
        i = i + 1;
    }
    proof {
        lemma_find_flag_none(pair_views(flags@), name@);
    }
    None
}

/// Bind the parsed flags to the declared parameters. `Ok` carries one raw
/// value (or the sentinel) per parameter, in declaration order; `Err` names
/// the first flag that no parameter consumed.
pub fn bind_args(params: &Vec<ParamDef>, flags: Vec<(String, String)>) -> (r: Result<
    Vec<String>,
    FireError,
>)
    ensures
        match r {
            Ok(v) => spec_bind_args(
                params@.map_values(|p: ParamDef| p@),
                pair_views(flags@),
            ) == Ok::<_, Seq<char>>(views_of(v@)),
            Err(e) => spec_bind_args(params@.map_values(|p: ParamDef| p@), pair_views(flags@))
                is Err && e@ == (ErrSpec::UnexpectedArgument {
                name: spec_bind_args(
                    params@.map_values(|p: ParamDef| p@),
                    pair_views(flags@),
                )->Err_0,
            }),
        },
{
    let ghost pviews = params@.map_values(|p: ParamDef| p@);
    let ghost fviews0 = pair_views(flags@);
    let mut rest = flags;
    let mut bound: Vec<String> = Vec::new();
    let n = params.len();
    let mut i: usize = 0;
    proof {
        assert(views_of(bound@) =~= Seq::<Seq<char>>::empty());
        assert(pviews.skip(0) =~= pviews);
        assert(Seq::<Seq<char>>::empty() + spec_bind(pviews, fviews0).0 =~= spec_bind(
            pviews,
            fviews0,
        ).0);
    }
    while i < n
        invariant
            0 <= i <= n,
            n == params@.len(),
            pviews == params@.map_values(|p: ParamDef| p@),
            pviews.len() == n,
            spec_bind(pviews, fviews0).0 == views_of(bound@) + spec_bind(
                pviews.skip(i as int),
                pair_views(rest@),
            ).0,
            spec_bind(pviews, fviews0).1 == spec_bind(
                pviews.skip(i as int),
                pair_views(rest@),
            ).1,
            bound@.len() == i,
        decreases n - i,
    {
        let ghost fv = pair_views(rest@);
        let ghost pre = views_of(bound@);
        proof {
            assert(pviews.skip(i as int)[0] == pviews[i as int]);
            assert(pviews[i as int] == params@[i as int]@);
            assert(pviews.skip(i as int).drop_first() =~= pviews.skip(i as int + 1));
        }
        match find_flag_in(&rest, &params[i].name) {
            Some(j) => {
                proof {
                    lemma_find_flag(fv, pviews[i as int].name);
                }
                let pair = rest.remove(j);
                bound.push(pair.1);
                proof {
                    assert(pair_views(rest@) =~= fv.remove(j as int));
                    assert(views_of(bound@) =~= pre.push(fv[j as int].1));
                    assert(pre + (seq![fv[j as int].1] + spec_bind(
                        pviews.skip(i as int + 1),
                        fv.remove(j as int),
                    ).0) =~= pre.push(fv[j as int].1) + spec_bind(
                        pviews.skip(i as int + 1),
                        fv.remove(j as int),
                    ).0);
                }
            },
            None => {
                let s = sentinel_string();
                let ghost sv = s@;
                bound.push(s);
                proof {
                    assert(views_of(bound@) =~= pre.push(sv));
                    assert(pre + (seq![sentinel()] + spec_bind(
                        pviews.skip(i as int + 1),
                        fv,
                    ).0) =~= pre.push(sentinel()) + spec_bind(pviews.skip(i as int + 1), fv).0);
                }
            },
        }
        i = i + 1;
    }
    proof {
        assert(pviews.skip(n as int).len() == 0);
        assert(spec_bind(pviews.skip(n as int), pair_views(rest@)).0
            =~= Seq::<Seq<char>>::empty());
        assert(views_of(bound@) + Seq::<Seq<char>>::empty() =~= views_of(bound@));
    }
    if rest.len() == 0 {
        Ok(bound)
    } else {
        let name = clone_string(&rest[0].0);
        proof {
            assert(pair_views(rest@)[0].0 == rest@[0].0@);
        }
        Err(FireError::UnexpectedArgument { name })
    }
}

} // verus!
