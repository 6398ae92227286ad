//! The command registry: an ordered mapping from command name to subcommand
//! descriptor. Keys are unique and kept in lexicographic order; inserting an
//! existing key replaces its descriptor (last registration wins).

use vstd::prelude::*;
use vstd::string::StrSliceExecFns;
use vstd::string::StringExecFns;

use crate::text::{
    lex_lt, str_eq, str_lt, string_of, lemma_lex_total, lemma_lex_trans, lemma_lex_irrefl,
};

verus! {

/// One declared parameter: its name and its type descriptor, both as text.
#[derive(Debug, PartialEq, Eq)]
pub struct ParamDef {
    pub name: String,
    pub ty: String,
}

#[verifier::ext_equal]
pub ghost struct ParamModel {
    pub name: Seq<char>,
    pub ty: Seq<char>,
}

impl View for ParamDef {
    type V = ParamModel;

    open spec fn view(&self) -> ParamModel {
        ParamModel { name: self.name@, ty: self.ty@ }
    }
}

/// The descriptor of one subcommand: the qualified name of the target
/// callable and the declared parameters, in declaration order.
#[derive(Debug, PartialEq, Eq)]
pub struct SubCommand {
    pub func: String,
    pub args: Vec<ParamDef>,
}

#[verifier::ext_equal]
pub ghost struct SubCommandModel {
    pub func: Seq<char>,
    pub args: Seq<ParamModel>,
}

impl View for SubCommand {
    type V = SubCommandModel;

    open spec fn view(&self) -> SubCommandModel {
        SubCommandModel { func: self.func@, args: self.args@.map_values(|p: ParamDef| p@) }
    }
}

/// A registry is modelled as its entries in key order.
#[derive(Debug, PartialEq, Eq)]
pub struct Registry {
    pub entries: Vec<(String, SubCommand)>,
}

impl View for Registry {
    type V = Seq<(Seq<char>, SubCommandModel)>;

    open spec fn view(&self) -> Seq<(Seq<char>, SubCommandModel)> {
        self.entries@.map_values(|e: (String, SubCommand)| (e.0@, e.1@))
    }
}

/// Keys strictly increase, so they are unique.
pub open spec fn reg_sorted(s: Seq<(Seq<char>, SubCommandModel)>) -> bool {
    forall|i: int, j: int|
        0 <= i < j < s.len() ==> lex_lt(#[trigger] s[i].0, #[trigger] s[j].0)
}

/// `c` is strictly below every key of `s`.
pub open spec fn key_below_all(c: Seq<char>, s: Seq<(Seq<char>, SubCommandModel)>) -> bool {
    forall|j: int| 0 <= j < s.len() ==> lex_lt(c, #[trigger] s[j].0)
}

/// Insertion into the ordered entry sequence: before the first larger key,
/// replacing an equal key.
pub open spec fn spec_insert(
    s: Seq<(Seq<char>, SubCommandModel)>,
    k: Seq<char>,
    v: SubCommandModel,
) -> Seq<(Seq<char>, SubCommandModel)>
    decreases s.len(),
{
    if s.len() == 0 {
        seq![(k, v)]
    } else if lex_lt(k, s[0].0) {
        seq![(k, v)] + s
    } else if k == s[0].0 {
        seq![(k, v)] + s.drop_first()
    } else {
        seq![s[0]] + spec_insert(s.drop_first(), k, v)
    }
}

/// The descriptor stored under `k`, if any.
pub open spec fn spec_lookup(
    s: Seq<(Seq<char>, SubCommandModel)>,
    k: Seq<char>,
) -> Option<SubCommandModel>
    decreases s.len(),
{
    if s.len() == 0 {
        None
    } else if s[0].0 == k {
        Some(s[0].1)
    } else {
        spec_lookup(s.drop_first(), k)
    }
}

pub proof fn lemma_insert_below(
    s: Seq<(Seq<char>, SubCommandModel)>,
    k: Seq<char>,
    v: SubCommandModel,
    c: Seq<char>,
)
    requires
        lex_lt(c, k),
        key_below_all(c, s),
    ensures
        key_below_all(c, spec_insert(s, k, v)),
    decreases s.len(),
{
    let res = spec_insert(s, k, v);
    if s.len() == 0 {
        assert(res =~= seq![(k, v)]);
    } else if lex_lt(k, s[0].0) {
        assert(forall|j: int| 1 <= j < res.len() ==> res[j] == s[j - 1]);
    } else if k == s[0].0 {
        assert(forall|j: int| 1 <= j < res.len() ==> res[j] == s.drop_first()[j - 1]);
        assert(forall|j: int| 0 <= j < s.drop_first().len() ==> s.drop_first()[j] == s[j + 1]);
    } else {
        assert(forall|j: int| 0 <= j < s.drop_first().len() ==> s.drop_first()[j] == s[j + 1]);
        lemma_insert_below(s.drop_first(), k, v, c);
        assert(forall|j: int| 1 <= j < res.len() ==> res[j] == spec_insert(
            s.drop_first(),
            k,
            v,
        )[j - 1]);
    }
}

pub proof fn lemma_insert_sorted(
    s: Seq<(Seq<char>, SubCommandModel)>,
    k: Seq<char>,
    v: SubCommandModel,
)
    requires
        reg_sorted(s),
    ensures
        reg_sorted(spec_insert(s, k, v)),
    decreases s.len(),
{
    let res = spec_insert(s, k, v);
    if s.len() == 0 {
    } else if lex_lt(k, s[0].0) {
        assert(forall|j: int| 1 <= j < res.len() ==> res[j] == s[j - 1]);
        assert forall|i: int, j: int| 0 <= i < j < res.len() implies lex_lt(
            res[i].0,
            res[j].0,
        ) by {
            if i == 0 {
                if j > 1 {
                    lemma_lex_trans(k, s[0].0, s[j - 1].0);
                }
            }
        }
    } else if k == s[0].0 {
        assert(forall|j: int| 0 <= j < s.drop_first().len() ==> s.drop_first()[j] == s[j + 1]);
        assert(forall|j: int| 1 <= j < res.len() ==> res[j] == s[j]);
        assert forall|i: int, j: int| 0 <= i < j < res.len() implies lex_lt(
            res[i].0,
            res[j].0,
        ) by {}
    } else {
        lemma_lex_total(k, s[0].0);
        assert(lex_lt(s[0].0, k));
        assert(forall|j: int| 0 <= j < s.drop_first().len() ==> s.drop_first()[j] == s[j + 1]);
        assert(reg_sorted(s.drop_first()));
        lemma_insert_sorted(s.drop_first(), k, v);
        assert(key_below_all(s[0].0, s.drop_first()));
        lemma_insert_below(s.drop_first(), k, v, s[0].0);
        let t = spec_insert(s.drop_first(), k, v);
        assert(forall|j: int| 1 <= j < res.len() ==> res[j] == t[j - 1]);
        assert(res[0] == s[0]);
        assert forall|i: int, j: int| 0 <= i < j < res.len() implies lex_lt(
            res[i].0,
            res[j].0,
        ) by {
            if i == 0 {
                assert(lex_lt(s[0].0, t[j - 1].0));
            }
        }
    }
}

/// Inserting a key above every present key appends at the end.
pub proof fn lemma_insert_append(
    s: Seq<(Seq<char>, SubCommandModel)>,
    k: Seq<char>,
    v: SubCommandModel,
)
    requires
        forall|j: int| 0 <= j < s.len() ==> lex_lt(#[trigger] s[j].0, k),
    ensures
        spec_insert(s, k, v) == s.push((k, v)),
    decreases s.len(),
{
    if s.len() == 0 {
        assert(spec_insert(s, k, v) =~= s.push((k, v)));
    } else {
        lemma_lex_total(k, s[0].0);
        assert(!lex_lt(k, s[0].0) && k != s[0].0);
        assert(forall|j: int| 0 <= j < s.drop_first().len() ==> s.drop_first()[j] == s[j + 1]);
        lemma_insert_append(s.drop_first(), k, v);
        assert(seq![s[0]] + s.drop_first().push((k, v)) =~= s.push((k, v)));
    }
}

/// Inserting past a prefix of strictly smaller keys leaves that prefix as it
/// stands.
pub proof fn lemma_insert_skip(
    s: Seq<(Seq<char>, SubCommandModel)>,
    k: Seq<char>,
    v: SubCommandModel,
    i: int,
)
    requires
        0 <= i <= s.len(),
        forall|j: int| 0 <= j < i ==> lex_lt(#[trigger] s[j].0, k),
    ensures
        spec_insert(s, k, v) == s.take(i) + spec_insert(s.skip(i), k, v),
    decreases i,
{
    if i == 0 {
        assert(s.skip(0) =~= s);
        assert(s.take(0) + spec_insert(s, k, v) =~= spec_insert(s, k, v));
    } else {
        lemma_lex_total(k, s[0].0);
        assert(lex_lt(s[0].0, k));
        assert(forall|j: int| 0 <= j < s.drop_first().len() ==> s.drop_first()[j] == s[j + 1]);
        lemma_insert_skip(s.drop_first(), k, v, i - 1);
        assert(s.drop_first().skip(i - 1) =~= s.skip(i));
        assert(seq![s[0]] + (s.drop_first().take(i - 1) + spec_insert(s.skip(i), k, v)) =~= s.take(
            i,
        ) + spec_insert(s.skip(i), k, v));
    }
}

/// A key that differs from the first `i` keys is looked up in the rest.
pub proof fn lemma_lookup_skip(s: Seq<(Seq<char>, SubCommandModel)>, k: Seq<char>, i: int)
    requires
        0 <= i <= s.len(),
        forall|j: int| 0 <= j < i ==> (#[trigger] s[j].0) != k,
    ensures
        spec_lookup(s, k) == spec_lookup(s.skip(i), k),
    decreases i,
{
    if i == 0 {
        assert(s.skip(0) =~= s);
    } else {
        assert(forall|j: int| 0 <= j < s.drop_first().len() ==> s.drop_first()[j] == s[j + 1]);
        lemma_lookup_skip(s.drop_first(), k, i - 1);
        assert(s.drop_first().skip(i - 1) =~= s.skip(i));
    }
}

/// The qualified callable name: `module::function`, or the bare function
/// name when there is no module.
pub open spec fn spec_qualified(modname: Seq<char>, funcname: Seq<char>) -> Seq<char> {
    if modname.len() == 0 {
        funcname
    } else {
        modname + "::"@ + funcname
    }
}

pub fn qualified_name(modname: &str, funcname: &str) -> (r: String)
    ensures
        r@ == spec_qualified(modname@, funcname@),
{
    if modname.unicode_len() == 0 {
        string_of(funcname)
    } else {
        let mut s = string_of(modname);
        s.append("::");
        s.append(funcname);
        s
    }
}

/// The position of the first stored key not below `name`: where an entry for
/// `name` belongs.
fn insert_pos(entries: &Vec<(String, SubCommand)>, name: &str) -> (i: usize)
    ensures
        0 <= i <= entries@.len(),
        forall|j: int| 0 <= j < i ==> lex_lt(#[trigger] entries@[j].0@, name@),
        i < entries@.len() ==> !lex_lt(entries@[i as int].0@, name@),
{
    let n = entries.len();
    let mut i: usize = 0;
    while i < n
        invariant
            0 <= i <= n,
            n == entries@.len(),
            forall|j: int| 0 <= j < i ==> lex_lt(#[trigger] entries@[j].0@, name@),
        decreases n - i,
    {
        if !str_lt(entries[i].0.as_str(), name) {
            return i;
        }
        i = i + 1;
    }
    i
}

impl Registry {
    /// Keys strictly increase through the stored entries.
    pub open spec fn wf(&self) -> bool {
        reg_sorted(self@)
    }

    pub fn new() -> (r: Registry)
        ensures
            r@ == Seq::<(Seq<char>, SubCommandModel)>::empty(),
            r.wf(),
    {
        let r = Registry { entries: Vec::new() };
        proof {
            assert(r@ =~= Seq::<(Seq<char>, SubCommandModel)>::empty());
        }
        r
    }

    pub fn len(&self) -> (n: usize)
        ensures
            n == self@.len(),
    {
        self.entries.len()
    }

    /// Insert a descriptor under a command name; an existing entry with the
    /// same name is replaced.
    pub fn insert(&mut self, name: String, cmd: SubCommand)
        requires
            old(self).wf(),
        ensures
            final(self).wf(),
            final(self)@ == spec_insert(old(self)@, name@, cmd@),
    {
        let ghost s0 = self@;
        let n = self.entries.len();
        let i = insert_pos(&self.entries, name.as_str());
        proof {
            assert(forall|j: int| 0 <= j < s0.len() ==> (#[trigger] s0[j]).0 == self.entries@[j].0@);
            lemma_insert_skip(s0, name@, cmd@, i as int);
            lemma_insert_sorted(s0, name@, cmd@);
        }
        if i < n {
            if str_eq(self.entries[i].0.as_str(), name.as_str()) {
                proof {
                    assert(s0.skip(i as int)[0] == s0[i as int]);
                    lemma_lex_irrefl(name@);
                    assert(spec_insert(s0.skip(i as int), name@, cmd@) =~= seq![
                        (name@, cmd@),
                    ] + s0.skip(i as int).drop_first());
                }
                self.entries.remove(i);
                self.entries.insert(i, (name, cmd));
                proof {
                    assert(self@ =~= s0.take(i as int) + (seq![(name@, cmd@)] + s0.skip(
                        i as int,
                    ).drop_first()));
                }
            } else {
                proof {
                    assert(s0.skip(i as int)[0] == s0[i as int]);
                    assert(!lex_lt(s0[i as int].0, name@));
                    lemma_lex_total(name@, s0[i as int].0);
                    assert(lex_lt(name@, s0[i as int].0));
                    assert(spec_insert(s0.skip(i as int), name@, cmd@) =~= seq![
                        (name@, cmd@),
                    ] + s0.skip(i as int));
                }
                self.entries.insert(i, (name, cmd));
                proof {
                    assert(self@ =~= s0.take(i as int) + (seq![(name@, cmd@)] + s0.skip(
                        i as int,
                    )));
                }
            }
        } else {
            proof {
                lemma_insert_append(s0, name@, cmd@);
            }
            self.entries.push((name, cmd));
            proof {
                assert(self@ =~= s0.push((name@, cmd@)));
            }
        }
    }

    /// The descriptor registered under `name`, if any.
    pub fn get(&self, name: &str) -> (r: Option<&SubCommand>)
        ensures
            match r {
                Some(c) => spec_lookup(self@, name@) == Some(c@),
                None => spec_lookup(self@, name@) is None,
            },
    {
        let n = self.entries.len();
        let mut i: usize = 0;
        while i < n
            invariant
                0 <= i <= n,
                n == self@.len(),
                forall|j: int| 0 <= j < i ==> (#[trigger] self@[j].0) != name@,
            decreases n - i,
        {
            if str_eq(self.entries[i].0.as_str(), name) {
                proof {
                    lemma_lookup_skip(self@, name@, i as int);
                    assert(self@.skip(i as int)[0] == self@[i as int]);
                }
                return Some(&self.entries[i].1);
            }
            i = i + 1;
        }
        proof {
            lemma_lookup_skip(self@, name@, i as int);
            assert(self@.skip(i as int).len() == 0);
        }
        None
    }

    /// Register a function's descriptor, as the registration collaborator
    /// reports it: the command key, the module name (empty for an ungrouped
    /// function), the function name and the declared parameters.
    pub fn register(&mut self, key: String, modname: &str, funcname: &str, args: Vec<ParamDef>)
        requires
            old(self).wf(),
        ensures
            final(self).wf(),
            final(self)@ == spec_insert(
                old(self)@,
                key@,
                SubCommandModel {
                    func: spec_qualified(modname@, funcname@),
                    args: args@.map_values(|p: ParamDef| p@),
                },
            ),
    {
        let func = qualified_name(modname, funcname);
        self.insert(key, SubCommand { func, args });
    }
}

} // verus!
