//! The registry codec. One line per command, in key order:
//! `name-target-param:type-param:type`; lines joined by a newline, with no
//! trailing newline. An empty parameter list leaves nothing after the second
//! `-`. Decoding splits each line on `-` at most twice, then splits the
//! remainder on `-` and each piece once on `:`, and reinserts the entries
//! into a fresh registry.

use vstd::prelude::*;
use vstd::string::StrSliceExecFns;
use vstd::string::StringExecFns;

use crate::registry::{
    ParamDef, ParamModel, Registry, SubCommand, SubCommandModel, reg_sorted, spec_insert,
    lemma_insert_append,
};
use crate::text::{
    clean_of, find_char, join_char, lex_lt, split_char, split_once_at, string_of, lemma_find_char,
    lemma_find_char_concat, lemma_join_push, lemma_split_join,
};

verus! {

/// Text that the encoding can carry without escaping: free of the three
/// delimiters of the format.
pub open spec fn wf_text(s: Seq<char>) -> bool {
    clean_of(s, '-') && clean_of(s, ':') && clean_of(s, '\n')
}

pub open spec fn wf_param(p: ParamModel) -> bool {
    wf_text(p.name) && wf_text(p.ty)
}

pub open spec fn wf_entry(name: Seq<char>, cmd: SubCommandModel) -> bool {
    &&& wf_text(name)
    &&& wf_text(cmd.func)
    &&& forall|i: int| 0 <= i < cmd.args.len() ==> wf_param(#[trigger] cmd.args[i])
}

/// Every command name, target and parameter is free of the delimiters.
pub open spec fn wf_registry(s: Seq<(Seq<char>, SubCommandModel)>) -> bool {
    forall|i: int| 0 <= i < s.len() ==> wf_entry((#[trigger] s[i]).0, s[i].1)
}

/// One encoded parameter: `name:type`.
pub open spec fn enc_param(p: ParamModel) -> Seq<char> {
    p.name + seq![':'] + p.ty
}

/// The encoded parameter list: parameters joined by `-`; empty when there
/// are none.
pub open spec fn enc_params(args: Seq<ParamModel>) -> Seq<char> {
    join_char(args.map_values(|p: ParamModel| enc_param(p)), '-')
}

/// One encoded registry line: `name-target-` followed by the parameter list.
pub open spec fn enc_entry(name: Seq<char>, cmd: SubCommandModel) -> Seq<char> {
    name + seq!['-'] + cmd.func + seq!['-'] + enc_params(cmd.args)
}

/// The encoded registry: entry lines joined by newlines.
pub open spec fn enc_registry(s: Seq<(Seq<char>, SubCommandModel)>) -> Seq<char> {
    join_char(s.map_values(|e: (Seq<char>, SubCommandModel)| enc_entry(e.0, e.1)), '\n')
}

/// Serialize a registry to its line-oriented text form.
pub fn dumps(f: Registry) -> (r: String)
    ensures
        r@ == enc_registry(f@),
{
    let ghost entries = f@;
    let ghost lines = entries.map_values(|e: (Seq<char>, SubCommandModel)| enc_entry(e.0, e.1));
    let mut result = String::new();
    let n = f.entries.len();
    let mut i: usize = 0;
    proof {
        assert(forall|k: int| 0 <= k < entries.len() ==> (#[trigger] entries[k]) == (
            f.entries@[k].0@,
            f.entries@[k].1@,
        ));
        assert(result@ =~= join_char(lines.take(0), '\n'));
    }
    while i < n
        invariant
            0 <= i <= n,
            n == f.entries@.len(),
            entries == f@,
            entries.len() == n,
            lines == entries.map_values(
                |e: (Seq<char>, SubCommandModel)| enc_entry(e.0, e.1),
            ),
            forall|k: int| 0 <= k < n ==> (#[trigger] entries[k]) == (
                f.entries@[k].0@,
                f.entries@[k].1@,
            ),
            result@ == join_char(lines.take(i as int), '\n'),
        decreases n - i,
    {
        proof {
            reveal_strlit("\n");
            reveal_strlit("-");
        }
        let ghost before = result@;
        if i > 0 {
            result.append("\n");
        }
        result.append(f.entries[i].0.as_str());
        result.append("-");
        result.append(f.entries[i].1.func.as_str());
        result.append("-");
        proof {
            assert("\n"@ =~= seq!['\n']);
            assert("-"@ =~= seq!['-']);
        }
        let ghost name = entries[i as int].0;
        let ghost cmd = entries[i as int].1;
        let ghost base = result@;
        proof {
            if i > 0 {
                assert(base =~= before + seq!['\n'] + name + seq!['-'] + cmd.func + seq!['-']);
            } else {
                assert(base =~= name + seq!['-'] + cmd.func + seq!['-']);
            }
        }
        let ghost toks = cmd.args.map_values(|p: ParamModel| enc_param(p));
        let m = f.entries[i].1.args.len();
        proof {
            assert(forall|k: int| 0 <= k < m ==> (#[trigger] cmd.args[k]) == f.entries@[i as int].1.args@[k]@);
            assert(result@ =~= base + join_char(toks.take(0), '-'));
        }
        let mut j: usize = 0;
        while j < m
            invariant
                0 <= j <= m,
                m == f.entries@[i as int].1.args@.len(),
                0 <= i < f.entries@.len(),
                cmd == f@[i as int].1,
                cmd.args.len() == m,
                toks == cmd.args.map_values(|p: ParamModel| enc_param(p)),
                forall|k: int| 0 <= k < m ==> (#[trigger] cmd.args[k])
                    == f.entries@[i as int].1.args@[k]@,
                result@ == base + join_char(toks.take(j as int), '-'),
            decreases m - j,
        {
            proof {
                reveal_strlit("-");
                reveal_strlit(":");
            }
            let ghost before_tok = result@;
            if j > 0 {
                result.append("-");
            }
            result.append(f.entries[i].1.args[j].name.as_str());
            result.append(":");
            result.append(f.entries[i].1.args[j].ty.as_str());
            proof {
                assert("-"@ =~= seq!['-']);
                assert(":"@ =~= seq![':']);
                let p = cmd.args[j as int];
                assert(toks[j as int] == enc_param(p));
                lemma_join_push(toks.take(j as int), '-', toks[j as int]);
                assert(toks.take(j as int).push(toks[j as int]) =~= toks.take(j as int + 1));
                if j > 0 {
                    assert(result@ =~= before_tok + seq!['-'] + (p.name + seq![':'] + p.ty));
                    assert(result@ =~= base + (join_char(toks.take(j as int), '-') + seq!['-']
                        + toks[j as int]));
                } else {
                    assert(toks.take(0).len() == 0);
                    assert(result@ =~= base + toks[0]);
                }
            }
            j = j + 1;
        }
        proof {
            assert(toks.take(m as int) =~= toks);
            assert(result@ == base + enc_params(cmd.args));
            assert(lines[i as int] == enc_entry(name, cmd));
            assert(enc_entry(name, cmd) =~= name + seq!['-'] + cmd.func + seq!['-'] + enc_params(
                cmd.args,
            ));
            lemma_join_push(lines.take(i as int), '\n', lines[i as int]);
            assert(lines.take(i as int).push(lines[i as int]) =~= lines.take(i as int + 1));
            if i > 0 {
                assert(result@ =~= before + seq!['\n'] + enc_entry(name, cmd));
                assert(result@ =~= join_char(lines.take(i as int), '\n') + seq!['\n']
                    + lines[i as int]);
            } else {
                assert(result@ =~= enc_entry(name, cmd));
            }
        }
        i = i + 1;
    }
    proof {
        assert(lines.take(n as int) =~= lines);
    }
    result
}

/// One decoded parameter: the piece before the first `:` is the name, the
/// rest the type. A piece without `:` is malformed.
pub open spec fn dec_param(tok: Seq<char>) -> Option<ParamModel> {
    let k = find_char(tok, ':');
    if k < 0 {
        None
    } else {
        Some(ParamModel { name: tok.take(k), ty: tok.skip(k + 1) })
    }
}

pub open spec fn dec_params(toks: Seq<Seq<char>>) -> Option<Seq<ParamModel>>
    decreases toks.len(),
{
    if toks.len() == 0 {
        Some(Seq::empty())
    } else {
        match dec_param(toks[0]) {
            None => None,
            Some(p) => match dec_params(toks.drop_first()) {
                None => None,
                Some(ps) => Some(seq![p] + ps),
            },
        }
    }
}

/// One decoded line: name up to the first `-`, target up to the second,
/// parameters from the rest. A line without `-` is malformed; a line with a
/// single `-` has an empty parameter list and the remainder as target.
pub open spec fn dec_entry(line: Seq<char>) -> Option<(Seq<char>, SubCommandModel)> {
    let i = find_char(line, '-');
    if i < 0 {
        None
    } else {
        let name = line.take(i);
        let rest = line.skip(i + 1);
        let j = find_char(rest, '-');
        if j < 0 {
            Some((name, SubCommandModel { func: rest, args: Seq::empty() }))
        } else {
            let func = rest.take(j);
            let blob = rest.skip(j + 1);
            if blob.len() == 0 {
                Some((name, SubCommandModel { func, args: Seq::empty() }))
            } else {
                match dec_params(split_char(blob, '-')) {
                    None => None,
                    Some(ps) => Some((name, SubCommandModel { func, args: ps })),
                }
            }
        }
    }
}

/// Decoding a sequence of lines inserts each decoded entry in turn.
pub open spec fn dec_lines(
    lines: Seq<Seq<char>>,
    acc: Seq<(Seq<char>, SubCommandModel)>,
) -> Option<Seq<(Seq<char>, SubCommandModel)>>
    decreases lines.len(),
{
    if lines.len() == 0 {
        Some(acc)
    } else {
        match dec_entry(lines[0]) {
            None => None,
            Some(e) => dec_lines(lines.drop_first(), spec_insert(acc, e.0, e.1)),
        }
    }
}

/// What decoding a whole serialized registry yields, when every line is
/// well formed.
pub open spec fn spec_loads(s: Seq<char>) -> Option<Seq<(Seq<char>, SubCommandModel)>> {
    dec_lines(split_char(s, '\n'), Seq::empty())
}

fn parse_param(tok: &str) -> (r: Option<ParamDef>)
    ensures
        match r {
            Some(p) => dec_param(tok@) == Some(p@),
            None => dec_param(tok@) is None,
        },
{
    match split_once_at(tok, ':') {
        None => None,
        Some((n, t)) => Some(ParamDef { name: string_of(n), ty: string_of(t) }),
    }
}

/// A prefix of already-decoded parameters, glued onto the rest.
pub open spec fn prepend_params(
    prefix: Seq<ParamModel>,
    r: Option<Seq<ParamModel>>,
) -> Option<Seq<ParamModel>> {
    match r {
        None => None,
        Some(ps) => Some(prefix + ps),
    }
}

fn parse_params(blob: &str) -> (r: Option<Vec<ParamDef>>)
    ensures
        match r {
            Some(v) => dec_params(split_char(blob@, '-')) == Some(
                v@.map_values(|p: ParamDef| p@),
            ),
            None => dec_params(split_char(blob@, '-')) is None,
        },
{
    let mut out: Vec<ParamDef> = Vec::new();
    let mut rest: &str = blob;
    proof {
        assert(out@.map_values(|p: ParamDef| p@) =~= Seq::<ParamModel>::empty());
        assert(forall|x: Option<Seq<ParamModel>>| prepend_params(Seq::<ParamModel>::empty(), x)
            == x);
    }
    loop
        invariant
            dec_params(split_char(blob@, '-')) == prepend_params(
                out@.map_values(|p: ParamDef| p@),
                dec_params(split_char(rest@, '-')),
            ),
        decreases rest@.len(),
    {
        let ghost pre = out@.map_values(|p: ParamDef| p@);
        match split_once_at(rest, '-') {
            Some((tok, tail)) => {
                proof {
                    lemma_find_char(rest@, '-');
                    let i = find_char(rest@, '-');
                    assert(split_char(rest@, '-') == seq![rest@.take(i)] + split_char(
                        rest@.skip(i + 1),
                        '-',
                    ));
                    assert((seq![tok@] + split_char(tail@, '-'))[0] == tok@);
                    assert((seq![tok@] + split_char(tail@, '-')).drop_first() =~= split_char(
                        tail@,
                        '-',
                    ));
                }
                match parse_param(tok) {
                    None => {
                        return None;
                    },
                    Some(p) => {
                        let ghost pm = p@;
                        out.push(p);
                        proof {
                            assert(out@.map_values(|q: ParamDef| q@) =~= pre.push(pm));
                            if dec_params(split_char(tail@, '-')) is Some {
                                let ps = dec_params(split_char(tail@, '-'))->Some_0;
                                assert(pre + (seq![pm] + ps) =~= pre.push(pm) + ps);
                            }
                        }
                        rest = tail;
                    },
                }
            },
            None => {
                proof {
                    assert(split_char(rest@, '-') == seq![rest@]);
                    assert(seq![rest@][0] == rest@);
                    assert(seq![rest@].drop_first() =~= Seq::<Seq<char>>::empty());
                }
                match parse_param(rest) {
                    None => {
                        return None;
                    },
                    Some(p) => {
                        let ghost pm = p@;
                        out.push(p);
                        proof {
                            assert(out@.map_values(|q: ParamDef| q@) =~= pre.push(pm));
                            assert(dec_params(Seq::<Seq<char>>::empty()) == Some(
                                Seq::<ParamModel>::empty(),
                            ));
                            assert(dec_params(seq![rest@]) == Some(
                                seq![pm] + Seq::<ParamModel>::empty(),
                            ));
                            assert(seq![pm] + Seq::<ParamModel>::empty() =~= seq![pm]);
                            assert(pre + seq![pm] =~= pre.push(pm));
                            assert(dec_params(split_char(blob@, '-')) == Some(pre.push(pm)));
                        }
                        return Some(out);
                    },
                }
            },
        }
    }
}

/// Parse one serialized line into a command name and its descriptor.
fn parse_entry(line: &str) -> (r: Option<(String, SubCommand)>)
    ensures
        match r {
            Some(e) => dec_entry(line@) == Some((e.0@, e.1@)),
            None => dec_entry(line@) is None,
        },
{
    match split_once_at(line, '-') {
        None => None,
        Some((name_s, rest)) => {
            let name = string_of(name_s);
            match split_once_at(rest, '-') {
                None => {
                    let cmd = SubCommand { func: string_of(rest), args: Vec::new() };
                    proof {
                        assert(cmd@.args =~= Seq::<ParamModel>::empty());
                    }
                    Some((name, cmd))
                },
                Some((func_s, blob)) => {
                    let func = string_of(func_s);
                    if blob.unicode_len() == 0 {
                        let cmd = SubCommand { func, args: Vec::new() };
                        proof {
                            assert(cmd@.args =~= Seq::<ParamModel>::empty());
                        }
                        Some((name, cmd))
                    } else {
                        match parse_params(blob) {
                            None => None,
                            Some(args) => {
                                let cmd = SubCommand { func, args };
                                Some((name, cmd))
                            },
                        }
                    }
                },
            }
        },
    }
}

/// Parse a serialized registry back into a registry; `None` when some line
/// or parameter is malformed.
pub fn loads(input: &str) -> (r: Option<Registry>)
    ensures
        match r {
            Some(reg) => spec_loads(input@) == Some(reg@) && reg.wf(),
            None => spec_loads(input@) is None,
        },
{
    let mut reg = Registry::new();
    let mut rest: &str = input;
    proof {
        assert(dec_lines(split_char(input@, '\n'), Seq::empty()) == dec_lines(
            split_char(rest@, '\n'),
            reg@,
        ));
    }
    loop
        invariant
            reg.wf(),
            dec_lines(split_char(input@, '\n'), Seq::empty()) == dec_lines(
                split_char(rest@, '\n'),
                reg@,
            ),
        decreases rest@.len(),
    {
        match split_once_at(rest, '\n') {
            Some((line, tail)) => {
                proof {
                    lemma_find_char(rest@, '\n');
                    let i = find_char(rest@, '\n');
                    assert(split_char(rest@, '\n') == seq![rest@.take(i)] + split_char(
                        rest@.skip(i + 1),
                        '\n',
                    ));
                    assert((seq![line@] + split_char(tail@, '\n'))[0] == line@);
                    assert((seq![line@] + split_char(tail@, '\n')).drop_first() =~= split_char(
                        tail@,
                        '\n',
                    ));
                }
                match parse_entry(line) {
                    None => {
                        return None;
                    },
                    Some((name, cmd)) => {
                        reg.insert(name, cmd);
                        rest = tail;
                    },
                }
            },
            None => {
                proof {
                    assert(split_char(rest@, '\n') == seq![rest@]);
                    assert(seq![rest@][0] == rest@);
                    assert(seq![rest@].drop_first() =~= Seq::<Seq<char>>::empty());
                }
                match parse_entry(rest) {
                    None => {
                        return None;
                    },
                    Some((name, cmd)) => {
                        let ghost nm = name@;
                        let ghost cm = cmd@;
                        let ghost acc0 = reg@;
                        reg.insert(name, cmd);
                        proof {
                            assert(dec_lines(Seq::<Seq<char>>::empty(), spec_insert(acc0, nm, cm))
                                == Some(spec_insert(acc0, nm, cm)));
                            assert(dec_lines(seq![rest@], acc0) == Some(spec_insert(acc0, nm, cm)));
                            assert(reg@ == spec_insert(acc0, nm, cm));
                        }
                        return Some(reg);
                    },
                }
            },
        }
    }
}

pub proof fn lemma_singleton_clean(c1: char, c2: char)
    requires
        c1 != c2,
    ensures
        clean_of(seq![c1], c2),
{
    assert(seq![c1].drop_first() =~= Seq::<char>::empty());
    assert(find_char(seq![c1].drop_first(), c2) == -1);
}

pub proof fn lemma_concat_clean(a: Seq<char>, b: Seq<char>, c: char)
    requires
        clean_of(a, c),
        clean_of(b, c),
    ensures
        clean_of(a + b, c),
{
    lemma_find_char_concat(a, b, c);
}

/// A join of delimiter-free pieces with a different separator stays free of
/// the delimiter.
pub proof fn lemma_join_clean(parts: Seq<Seq<char>>, sep: char, c: char)
    requires
        sep != c,
        forall|i: int| 0 <= i < parts.len() ==> clean_of(#[trigger] parts[i], c),
    ensures
        clean_of(join_char(parts, sep), c),
    decreases parts.len(),
{
    if parts.len() == 0 {
        assert(find_char(Seq::<char>::empty(), c) == -1);
    } else if parts.len() == 1 {
    } else {
        assert(forall|i: int| 0 <= i < parts.drop_first().len() ==> parts.drop_first()[i]
            == parts[i + 1]);
        lemma_join_clean(parts.drop_first(), sep, c);
        lemma_singleton_clean(sep, c);
        lemma_concat_clean(seq![sep], join_char(parts.drop_first(), sep), c);
        lemma_concat_clean(parts[0], seq![sep] + join_char(parts.drop_first(), sep), c);
        assert(parts[0] + seq![sep] + join_char(parts.drop_first(), sep) =~= parts[0] + (seq![sep]
            + join_char(parts.drop_first(), sep)));
    }
}

/// An encoded parameter is free of `-` and newline, carries its `:` exactly
/// after the name, and decodes to itself.
pub proof fn lemma_enc_param(p: ParamModel)
    requires
        wf_param(p),
    ensures
        clean_of(enc_param(p), '-'),
        clean_of(enc_param(p), '\n'),
        find_char(enc_param(p), ':') == p.name.len(),
        dec_param(enc_param(p)) == Some(p),
{
    let e = enc_param(p);
    assert(e =~= p.name + (seq![':'] + p.ty));
    lemma_singleton_clean(':', '-');
    lemma_singleton_clean(':', '\n');
    lemma_concat_clean(seq![':'], p.ty, '-');
    lemma_concat_clean(p.name, seq![':'] + p.ty, '-');
    lemma_concat_clean(seq![':'], p.ty, '\n');
    lemma_concat_clean(p.name, seq![':'] + p.ty, '\n');
    assert((seq![':'] + p.ty)[0] == ':');
    assert(find_char(seq![':'] + p.ty, ':') == 0);
    lemma_find_char_concat(p.name, seq![':'] + p.ty, ':');
    assert(find_char(e, ':') == p.name.len());
    assert(e.take(p.name.len() as int) =~= p.name);
    assert(e.skip(p.name.len() as int + 1) =~= p.ty);
    assert(dec_param(e) == Some(ParamModel { name: p.name, ty: p.ty }));
    assert(ParamModel { name: p.name, ty: p.ty } =~= p);
}

pub proof fn lemma_dec_params_toks(args: Seq<ParamModel>)
    requires
        forall|i: int| 0 <= i < args.len() ==> wf_param(#[trigger] args[i]),
    ensures
        dec_params(args.map_values(|p: ParamModel| enc_param(p))) == Some(args),
    decreases args.len(),
{
    let toks = args.map_values(|p: ParamModel| enc_param(p));
    if args.len() == 0 {
        assert(toks =~= Seq::<Seq<char>>::empty());
        assert(args =~= Seq::<ParamModel>::empty());
    } else {
        assert(toks[0] == enc_param(args[0]));
        lemma_enc_param(args[0]);
        assert(forall|i: int| 0 <= i < args.drop_first().len() ==> args.drop_first()[i] == args[i
            + 1]);
        lemma_dec_params_toks(args.drop_first());
        assert(toks.drop_first() =~= args.drop_first().map_values(
            |p: ParamModel| enc_param(p),
        ));
        assert(seq![args[0]] + args.drop_first() =~= args);
    }
}

/// The encoded parameter list is newline-free; when nonempty it is nonempty
/// as text and decodes to the parameters themselves.
pub proof fn lemma_enc_params(args: Seq<ParamModel>)
    requires
        forall|i: int| 0 <= i < args.len() ==> wf_param(#[trigger] args[i]),
    ensures
        clean_of(enc_params(args), '\n'),
        args.len() == 0 ==> enc_params(args).len() == 0,
        args.len() > 0 ==> enc_params(args).len() > 0 && dec_params(
            split_char(enc_params(args), '-'),
        ) == Some(args),
{
    let toks = args.map_values(|p: ParamModel| enc_param(p));
    assert forall|i: int| 0 <= i < toks.len() implies clean_of(#[trigger] toks[i], '\n')
        && clean_of(toks[i], '-') by {
        lemma_enc_param(args[i]);
    }
    lemma_join_clean(toks, '-', '\n');
    if args.len() == 0 {
        assert(toks =~= Seq::<Seq<char>>::empty());
    } else {
        lemma_split_join(toks, '-');
        lemma_enc_param(args[0]);
        if enc_params(args).len() == 0 {
            assert(find_char(enc_params(args), '-') == -1);
            assert(split_char(enc_params(args), '-') == seq![enc_params(args)]);
            assert(toks[0] == enc_params(args));
            assert(toks[0].len() == 0);
            assert(find_char(toks[0], ':') == -1);
            assert(false);
        }
        lemma_dec_params_toks(args);
    }
}

/// An encoded line is newline-free and decodes to its own entry.
pub proof fn lemma_enc_entry(name: Seq<char>, cmd: SubCommandModel)
    requires
        wf_entry(name, cmd),
    ensures
        clean_of(enc_entry(name, cmd), '\n'),
        dec_entry(enc_entry(name, cmd)) == Some((name, cmd)),
{
    let blob = enc_params(cmd.args);
    let e = enc_entry(name, cmd);
    lemma_enc_params(cmd.args);
    lemma_singleton_clean('-', '\n');
    let tail2 = seq!['-'] + (cmd.func + (seq!['-'] + blob));
    assert(e =~= name + tail2);
    // newline-freedom, assembled from the pieces
    lemma_concat_clean(seq!['-'], blob, '\n');
    lemma_concat_clean(cmd.func, seq!['-'] + blob, '\n');
    lemma_concat_clean(seq!['-'], cmd.func + (seq!['-'] + blob), '\n');
    assert(seq!['-'] + (cmd.func + (seq!['-'] + blob)) =~= tail2);
    lemma_concat_clean(name, tail2, '\n');
    // the first `-` closes the name
    assert(tail2[0] == '-');
    assert(find_char(tail2, '-') == 0);
    lemma_find_char_concat(name, tail2, '-');
    let i = find_char(e, '-');
    assert(i == name.len());
    assert(e.take(i) =~= name);
    let rest = e.skip(i + 1);
    assert(rest =~= cmd.func + (seq!['-'] + blob));
    // the second `-` closes the target
    assert((seq!['-'] + blob)[0] == '-');
    assert(find_char(seq!['-'] + blob, '-') == 0);
    lemma_find_char_concat(cmd.func, seq!['-'] + blob, '-');
    let j = find_char(rest, '-');
    assert(j == cmd.func.len());
    assert(rest.take(j) =~= cmd.func);
    assert(rest.skip(j + 1) =~= blob);
    if cmd.args.len() == 0 {
        assert(blob.len() == 0);
        assert(dec_entry(e) == Some(
            (name, SubCommandModel { func: cmd.func, args: Seq::empty() }),
        ));
        assert(SubCommandModel { func: cmd.func, args: Seq::empty() } =~= cmd);
    } else {
        assert(blob.len() > 0);
        assert(dec_params(split_char(blob, '-')) == Some(cmd.args));
        assert(SubCommandModel { func: cmd.func, args: cmd.args } =~= cmd);
    }
}

/// Decoding the encoded lines extends the accumulated entries in order.
pub proof fn lemma_dec_enc_lines(
    entries: Seq<(Seq<char>, SubCommandModel)>,
    acc: Seq<(Seq<char>, SubCommandModel)>,
)
    requires
        wf_registry(entries),
        reg_sorted(acc + entries),
    ensures
        dec_lines(
            entries.map_values(|e: (Seq<char>, SubCommandModel)| enc_entry(e.0, e.1)),
            acc,
        ) == Some(acc + entries),
    decreases entries.len(),
{
    let lines = entries.map_values(|e: (Seq<char>, SubCommandModel)| enc_entry(e.0, e.1));
    if entries.len() == 0 {
        assert(lines =~= Seq::<Seq<char>>::empty());
        assert(acc + entries =~= acc);
    } else {
        let e0 = entries[0];
        assert(lines[0] == enc_entry(e0.0, e0.1));
        lemma_enc_entry(e0.0, e0.1);
        assert(dec_entry(lines[0]) == Some((e0.0, e0.1)));
        assert forall|j: int| 0 <= j < acc.len() implies lex_lt(#[trigger] acc[j].0, e0.0) by {
            assert((acc + entries)[j] == acc[j]);
            assert((acc + entries)[acc.len() as int] == e0);
        }
        lemma_insert_append(acc, e0.0, e0.1);
        assert(spec_insert(acc, e0.0, e0.1) == acc.push((e0.0, e0.1)));
        assert((e0.0, e0.1) == e0);
        let acc2 = acc.push(e0);
        assert(acc2 + entries.drop_first() =~= acc + entries);
        assert(forall|i: int| 0 <= i < entries.drop_first().len() ==> entries.drop_first()[i]
            == entries[i + 1]);
        lemma_dec_enc_lines(entries.drop_first(), acc2);
        assert(lines.drop_first() =~= entries.drop_first().map_values(
            |e: (Seq<char>, SubCommandModel)| enc_entry(e.0, e.1),
        ));
    }
}

/// Decoding inverts encoding: a nonempty registry whose command names,
/// targets and parameters are free of the `-`, `:` and newline delimiters is
/// decoded from its own encoding unchanged — same keys, same descriptors,
/// same parameter order.
pub proof fn lemma_codec_round_trip(r: Seq<(Seq<char>, SubCommandModel)>)
    requires
        r.len() > 0,
        reg_sorted(r),
        wf_registry(r),
    ensures
        spec_loads(enc_registry(r)) == Some(r),
{
    let lines = r.map_values(|e: (Seq<char>, SubCommandModel)| enc_entry(e.0, e.1));
    assert forall|i: int| 0 <= i < lines.len() implies clean_of(#[trigger] lines[i], '\n') by {
        lemma_enc_entry(r[i].0, r[i].1);
    }
    lemma_split_join(lines, '\n');
    assert(Seq::<(Seq<char>, SubCommandModel)>::empty() + r =~= r);
    lemma_dec_enc_lines(r, Seq::empty());
}

} // verus!
