//! Type coercion. Each bound raw string is turned into a typed value
//! according to the parameter's declared type descriptor: an optional type
//! turns the sentinel into an absent value, a required type makes the
//! sentinel a fatal missing-argument error, and scalar values are parsed
//! exactly as `str::parse` would parse them.
//!
//! Type descriptors are compared with spaces removed, so both the spaced
//! rendering of a declaration (`Option < & str >`) and the plain one
//! (`Option<&str>`) name the same type.

use vstd::prelude::*;
use vstd::string::StrSliceExecFns;

use crate::binder::sentinel;
use crate::errors::{ErrSpec, FireError};
use crate::registry::{ParamDef, ParamModel};
use crate::text::{clone_string, str_eq};

verus! {

/// `s` with every space removed.
pub open spec fn despace(s: Seq<char>) -> Seq<char>
    decreases s.len(),
{
    if s.len() == 0 {
        Seq::empty()
    } else if s.last() == ' ' {
        despace(s.drop_last())
    } else {
        despace(s.drop_last()).push(s.last())
    }
}

/// The four shapes a type descriptor can take.
#[verifier::ext_equal]
pub ghost enum TyClass {
    /// An optional borrowed string: present values are used raw.
    OptStr,
    /// An optional scalar: present values are parsed as the inner type.
    OptOf(Seq<char>),
    /// A required borrowed string.
    ReqStr,
    /// A required scalar.
    Plain(Seq<char>),
}

/// Classify a type descriptor, spaces removed.
pub open spec fn classify(ty: Seq<char>) -> TyClass {
    let d = despace(ty);
    if d == "Option<&str>"@ {
        TyClass::OptStr
    } else if d.len() >= 8 && d.take(7) == "Option<"@ && d.last() == '>' {
        TyClass::OptOf(d.subrange(7, d.len() - 1))
    } else if d == "&str"@ {
        TyClass::ReqStr
    } else {
        TyClass::Plain(d)
    }
}

pub open spec fn is_digit(c: char) -> bool {
    48 <= c as u32 <= 57
}

pub open spec fn digit_val(c: char) -> int {
    c as u32 - 48
}

pub open spec fn all_digits(s: Seq<char>) -> bool {
    forall|i: int| 0 <= i < s.len() ==> is_digit(#[trigger] s[i])
}

/// The value of a digit string, most significant digit first.
pub open spec fn digits_val(s: Seq<char>) -> int
    decreases s.len(),
{
    if s.len() == 0 {
        0
    } else {
        digits_val(s.drop_last()) * 10 + digit_val(s.last())
    }
}

pub proof fn lemma_digits_val_nonneg(s: Seq<char>)
    requires
        all_digits(s),
    ensures
        digits_val(s) >= 0,
    decreases s.len(),
{
    if s.len() > 0 {
        assert(forall|i: int| 0 <= i < s.drop_last().len() ==> s.drop_last()[i] == s[i]);
        lemma_digits_val_nonneg(s.drop_last());
    }
}

/// A digit string is worth at least any of its prefixes.
pub proof fn lemma_digits_val_mono(s: Seq<char>, k: int)
    requires
        all_digits(s),
        0 <= k <= s.len(),
    ensures
        digits_val(s) >= digits_val(s.take(k)),
    decreases s.len() - k,
{
    if k == s.len() {
        assert(s.take(k) =~= s);
    } else {
        assert(s.take(k + 1).drop_last() =~= s.take(k));
        assert(s.take(k + 1).last() == s[k]);
        assert(forall|i: int| 0 <= i < k ==> s.take(k)[i] == s[i]);
        lemma_digits_val_nonneg(s.take(k));
        assert(digits_val(s.take(k + 1)) == digits_val(s.take(k)) * 10 + digit_val(s[k]));
        assert(digits_val(s.take(k + 1)) >= digits_val(s.take(k)));
        lemma_digits_val_mono(s, k + 1);
    }
}

/// What `str::parse` accepts for an unsigned integer type with maximum
/// `max`: an optional `+`, then one or more digits, valued at most `max`.
pub open spec fn spec_parse_uint(s: Seq<char>, max: int) -> Option<int> {
    let body = if s.len() > 0 && s[0] == '+' {
        s.drop_first()
    } else {
        s
    };
    if body.len() == 0 || !all_digits(body) {
        None
    } else if digits_val(body) > max {
        None
    } else {
        Some(digits_val(body))
    }
}

/// What `str::parse` accepts for a signed integer type with range
/// `min ..= max`: an optional sign, then one or more digits, valued within
/// the range.
pub open spec fn spec_parse_int(s: Seq<char>, min: int, max: int) -> Option<int> {
    if s.len() > 0 && s[0] == '-' {
        let body = s.drop_first();
        if body.len() == 0 || !all_digits(body) {
            None
        } else if -digits_val(body) < min {
            None
        } else {
            Some(-digits_val(body))
        }
    } else {
        spec_parse_uint(s, max)
    }
}

/// Accumulate the digits of `s` from position `start` on, up to `max`.
fn parse_digits(s: &str, start: usize, max: u64) -> (r: Option<u64>)
    requires
        start <= s@.len(),
    ensures
        ({
            let body = s@.skip(start as int);
            match r {
                Some(v) => body.len() > 0 && all_digits(body) && digits_val(body) == v as int
                    && v <= max,
                None => body.len() == 0 || !all_digits(body) || digits_val(body) > max as int,
            }
        }),
{
    let ghost body = s@.skip(start as int);
    let n = s.unicode_len();
    let mut acc: u64 = 0;
    let mut i: usize = start;
    proof {
        assert(body.take(0) =~= Seq::<char>::empty());
    }
    while i < n
        invariant
            start <= i <= n,
            n == s@.len(),
            body == s@.skip(start as int),
            body.len() == n - start,
            forall|j: int| 0 <= j < i - start ==> is_digit(#[trigger] body[j]),
            acc as int == digits_val(body.take(i - start)),
            acc <= max,
        decreases n - i,
    {
        let ghost k = i - start;
        let c = s.get_char(i);
        proof {
            assert(body[k] == s@[i as int]);
        }
        if !(48 <= c as u32 && c as u32 <= 57) {
            proof {
                assert(!is_digit(body[k]));
                assert(!all_digits(body));
            }
            return None;
        }
        let d: u64 = (c as u32 - 48) as u64;
        proof {
            assert(d as int == digit_val(body[k]));
            assert(d <= 9);
            assert(body.take(k + 1).drop_last() =~= body.take(k));
            assert(body.take(k + 1).last() == body[k]);
            assert(digits_val(body.take(k + 1)) == acc as int * 10 + d as int);
            assert(max as int == (max as int / 10) * 10 + (max as int % 10));
            assert(0 <= max as int % 10 < 10);
        }
        if acc > max / 10 || (acc == max / 10 && d > max % 10) {
            proof {
                assert(acc as int * 10 + d as int > max as int);
                if all_digits(body) {
                    lemma_digits_val_mono(body, k + 1);
                    assert(digits_val(body) > max as int);
                }
            }
            return None;
        }
        proof {
            assert(acc as int * 10 + d as int <= max as int);
        }
        acc = acc * 10 + d;
        i = i + 1;
        proof {
            assert(forall|j: int| 0 <= j < k ==> body.take(k + 1)[j] == body[j]);
        }
    }
    if i == start {
        proof {
            assert(body.len() == 0);
        }
        return None;
    }
    proof {
        assert(body.take(n - start) =~= body);
        assert(all_digits(body));
    }
    Some(acc)
}

/// Parse an unsigned decimal with maximum `max`, as `str::parse` does for
/// the unsigned integer type of that maximum.
fn parse_uint_str(s: &str, max: u64) -> (r: Option<u64>)
    ensures
        match r {
            Some(v) => spec_parse_uint(s@, max as int) == Some(v as int),
            None => spec_parse_uint(s@, max as int) is None,
        },
{
    let n = s.unicode_len();
    let start: usize = if n > 0 && s.get_char(0) == '+' {
        1
    } else {
        0
    };
    proof {
        if start == 1 {
            assert(s@.skip(1) =~= s@.drop_first());
        } else {
            assert(s@.skip(0) =~= s@);
        }
    }
    parse_digits(s, start, max)
}

/// Parse a signed decimal with range `min ..= max`, as `str::parse` does
/// for the signed integer type of that range.
fn parse_int_str(s: &str, min: i64, max: i64) -> (r: Option<i64>)
    requires
        max > 0,
        min as int == -(max as int) - 1,
    ensures
        match r {
            Some(v) => spec_parse_int(s@, min as int, max as int) == Some(v as int),
            None => spec_parse_int(s@, min as int, max as int) is None,
        },
{
    let n = s.unicode_len();
    if n > 0 && s.get_char(0) == '-' {
        let mag_max: u64 = (max as u64) + 1;
        proof {
            assert(s@.skip(1) =~= s@.drop_first());
        }
        match parse_digits(s, 1, mag_max) {
            None => None,
            Some(mag) => {
                if mag == mag_max {
                    Some(min)
                } else {
                    Some(-(mag as i64))
                }
            },
        }
    } else {
        match parse_uint_str(s, max as u64) {
            None => None,
            Some(v) => Some(v as i64),
        }
    }
}

/// A coerced argument value, ready to hand to the target callable.
#[derive(Debug, PartialEq, Eq)]
pub enum ArgValue {
    /// An optional parameter that was not supplied.
    Absent,
    Text(String),
    Int(i64),
    Uint(u64),
    Bool(bool),
    Char(char),
}

#[verifier::ext_equal]
pub ghost enum ValueModel {
    Absent,
    Text(Seq<char>),
    Int(int),
    Uint(int),
    Bool(bool),
    Char(char),
}

impl View for ArgValue {
    type V = ValueModel;

    open spec fn view(&self) -> ValueModel {
        match self {
            ArgValue::Absent => ValueModel::Absent,
            ArgValue::Text(s) => ValueModel::Text(s@),
            ArgValue::Int(v) => ValueModel::Int(*v as int),
            ArgValue::Uint(v) => ValueModel::Uint(*v as int),
            ArgValue::Bool(b) => ValueModel::Bool(*b),
            ArgValue::Char(c) => ValueModel::Char(*c),
        }
    }
}

/// Coercion of a present raw value into one scalar type, named with spaces
/// removed. `None` is a coercion failure, including an unrecognized type.
pub open spec fn spec_coerce_scalar(d: Seq<char>, raw: Seq<char>) -> Option<ValueModel> {
    if d == "String"@ || d == "string"@ {
        Some(ValueModel::Text(raw))
    } else if d == "bool"@ {
        if raw == "true"@ {
            Some(ValueModel::Bool(true))
        } else if raw == "false"@ {
            Some(ValueModel::Bool(false))
        } else {
            None
        }
    } else if d == "char"@ {
        if raw.len() == 1 {
            Some(ValueModel::Char(raw[0]))
        } else {
            None
        }
    } else if d == "i8"@ {
        match spec_parse_int(raw, -128, 127) {
            Some(v) => Some(ValueModel::Int(v)),
            None => None,
        }
    } else if d == "i16"@ {
        match spec_parse_int(raw, -32768, 32767) {
            Some(v) => Some(ValueModel::Int(v)),
            None => None,
        }
    } else if d == "i32"@ {
        match spec_parse_int(raw, -2147483648, 2147483647) {
            Some(v) => Some(ValueModel::Int(v)),
            None => None,
        }
    } else if d == "i64"@ {
        match spec_parse_int(raw, -9223372036854775808, 9223372036854775807) {
            Some(v) => Some(ValueModel::Int(v)),
            None => None,
        }
    } else if d == "u8"@ {
        match spec_parse_uint(raw, 255) {
            Some(v) => Some(ValueModel::Uint(v)),
            None => None,
        }
    } else if d == "u16"@ {
        match spec_parse_uint(raw, 65535) {
            Some(v) => Some(ValueModel::Uint(v)),
            None => None,
        }
    } else if d == "u32"@ {
        match spec_parse_uint(raw, 4294967295) {
            Some(v) => Some(ValueModel::Uint(v)),
            None => None,
        }
    } else if d == "u64"@ {
        match spec_parse_uint(raw, 18446744073709551615) {
            Some(v) => Some(ValueModel::Uint(v)),
            None => None,
        }
    } else {
        None
    }
}

/// Coercion of one bound value against its parameter.
pub open spec fn spec_coerce_one(p: ParamModel, raw: Seq<char>) -> Result<ValueModel, ErrSpec> {
    match classify(p.ty) {
        TyClass::OptStr => if raw == sentinel() {
            Ok(ValueModel::Absent)
        } else {
            Ok(ValueModel::Text(raw))
        },
        TyClass::OptOf(inner) => if raw == sentinel() {
            Ok(ValueModel::Absent)
        } else {
            match spec_coerce_scalar(inner, raw) {
                Some(v) => Ok(v),
                None => Err(ErrSpec::TypeCoercionError { value: raw }),
            }
        },
        TyClass::ReqStr => if raw == sentinel() {
            Err(ErrSpec::MissingRequiredArgument { name: p.name })
        } else {
            Ok(ValueModel::Text(raw))
        },
        TyClass::Plain(d) => if raw == sentinel() {
            Err(ErrSpec::MissingRequiredArgument { name: p.name })
        } else {
            match spec_coerce_scalar(d, raw) {
                Some(v) => Ok(v),
                None => Err(ErrSpec::TypeCoercionError { value: raw }),
            }
        },
    }
}

/// Coercion of every bound value, in order; the first failure wins.
pub open spec fn spec_coerce_all(params: Seq<ParamModel>, bound: Seq<Seq<char>>) -> Result<
    Seq<ValueModel>,
    ErrSpec,
>
    decreases params.len(),
{
    if params.len() == 0 {
        Ok(Seq::empty())
    } else {
        match spec_coerce_one(params[0], bound[0]) {
            Err(e) => Err(e),
            Ok(v) => match spec_coerce_all(params.drop_first(), bound.drop_first()) {
                Err(e) => Err(e),
                Ok(vs) => Ok(seq![v] + vs),
            },
        }
    }
}

/// The characters of `s` with spaces removed.
fn despace_chars(s: &str) -> (v: Vec<char>)
    ensures
        v@ == despace(s@),
{
    let n = s.unicode_len();
    let mut v: Vec<char> = Vec::new();
    let mut i: usize = 0;
    proof {
        assert(s@.take(0) =~= Seq::<char>::empty());
        assert(v@ =~= despace(s@.take(0)));
    }
    while i < n
        invariant
            0 <= i <= n,
            n == s@.len(),
            v@ == despace(s@.take(i as int)),
        decreases n - i,
    {
        let c = s.get_char(i);
        proof {
            assert(s@.take(i as int + 1).drop_last() =~= s@.take(i as int));
            assert(s@.take(i as int + 1).last() == s@[i as int]);
        }
        if c != ' ' {
            v.push(c);
        }
        i = i + 1;
    }
    proof {
        assert(s@.take(n as int) =~= s@);
    }
    v
}

/// Character-wise equality of a character vector and a string.
fn chars_eq(v: &Vec<char>, lit: &str) -> (r: bool)
    ensures
        r == (v@ == lit@),
{
    let n = lit.unicode_len();
    if v.len() != n {
        return false;
    }
    let mut i: usize = 0;
    while i < n
        invariant
            0 <= i <= n,
            n == lit@.len(),
            v@.len() == n,
            forall|j: int| 0 <= j < i ==> v@[j] == lit@[j],
        decreases n - i,
    {
        if v[i] != lit.get_char(i) {
            return false;
        }
        i = i + 1;
    }
    proof {
        assert(v@ =~= lit@);
    }
    true
}

/// Whether `d` reads `Option<` ... `>`.
fn opt_wrapped(d: &Vec<char>) -> (r: bool)
    ensures
        r == (d@.len() >= 8 && d@.take(7) == "Option<"@ && d@.last() == '>'),
{
    let n = d.len();
    if n < 8 {
        return false;
    }
    if d[n - 1] != '>' {
        return false;
    }
    let mut i: usize = 0;
    while i < 7
        invariant
            0 <= i <= 7,
            d@.len() >= 8,
            forall|j: int| 0 <= j < i ==> d@[j] == "Option<"@[j],
        decreases 7 - i,
    {
        proof {
            reveal_strlit("Option<");
        }
        if d[i] != "Option<".get_char(i) {
            proof {
                assert(d@.take(7)[i as int] != "Option<"@[i as int]);
            }
            return false;
        }
        i = i + 1;
    }
    proof {
        reveal_strlit("Option<");
        assert(d@.take(7) =~= "Option<"@);
    }
    true
}

/// The characters of `d` between positions `from` and `to`.
fn subvec(d: &Vec<char>, from: usize, to: usize) -> (r: Vec<char>)
    requires
        from <= to <= d@.len(),
    ensures
        r@ == d@.subrange(from as int, to as int),
{
    let mut r: Vec<char> = Vec::new();
    let mut i: usize = from;
    while i < to
        invariant
            from <= i <= to <= d@.len(),
            r@ == d@.subrange(from as int, i as int),
        decreases to - i,
    {
        r.push(d[i]);
        proof {
            assert(r@ =~= d@.subrange(from as int, i as int + 1));
        }
        i = i + 1;
    }
    r
}

/// Coerce a present raw value into the scalar type `d` names (spaces
/// already removed); `None` when the value does not parse as that type or
/// the type is not a recognized scalar.
fn coerce_scalar(d: &Vec<char>, raw: &String) -> (r: Option<ArgValue>)
    ensures
        match r {
            Some(v) => spec_coerce_scalar(d@, raw@) == Some(v@),
            None => spec_coerce_scalar(d@, raw@) is None,
        },
{
    if chars_eq(d, "String") || chars_eq(d, "string") {
        Some(ArgValue::Text(clone_string(raw)))
    } else if chars_eq(d, "bool") {
        if str_eq(raw.as_str(), "true") {
            Some(ArgValue::Bool(true))
        } else if str_eq(raw.as_str(), "false") {
            Some(ArgValue::Bool(false))
        } else {
            None
        }
    } else if chars_eq(d, "char") {
        if raw.as_str().unicode_len() == 1 {
            Some(ArgValue::Char(raw.as_str().get_char(0)))
        } else {
            None
        }
    } else if chars_eq(d, "i8") {
        match parse_int_str(raw.as_str(), -128, 127) {
            Some(v) => Some(ArgValue::Int(v)),
            None => None,
        }
    } else if chars_eq(d, "i16") {
        match parse_int_str(raw.as_str(), -32768, 32767) {
            Some(v) => Some(ArgValue::Int(v)),
            None => None,
        }
    } else if chars_eq(d, "i32") {
        match parse_int_str(raw.as_str(), -2147483648, 2147483647) {
            Some(v) => Some(ArgValue::Int(v)),
            None => None,
        }
    } else if chars_eq(d, "i64") {
        match parse_int_str(raw.as_str(), i64::MIN, i64::MAX) {
            Some(v) => Some(ArgValue::Int(v)),
            None => None,
        }
    } else if chars_eq(d, "u8") {
        match parse_uint_str(raw.as_str(), 255) {
            Some(v) => Some(ArgValue::Uint(v)),
            None => None,
        }
    } else if chars_eq(d, "u16") {
        match parse_uint_str(raw.as_str(), 65535) {
            Some(v) => Some(ArgValue::Uint(v)),
            None => None,
        }
    } else if chars_eq(d, "u32") {
        match parse_uint_str(raw.as_str(), 4294967295) {
            Some(v) => Some(ArgValue::Uint(v)),
            None => None,
        }
    } else if chars_eq(d, "u64") {
        match parse_uint_str(raw.as_str(), 18446744073709551615) {
            Some(v) => Some(ArgValue::Uint(v)),
            None => None,
        }
    } else {
        None
    }
}

/// Coerce one bound value against its declared parameter.
pub fn coerce_one(def: &ParamDef, raw: &String) -> (r: Result<ArgValue, FireError>)
    ensures
        match r {
            Ok(v) => spec_coerce_one(def@, raw@) == Ok::<_, ErrSpec>(v@),
            Err(e) => spec_coerce_one(def@, raw@) == Err::<ValueModel, _>(e@),
        },
{
    let d = despace_chars(def.ty.as_str());
    let is_sent = str_eq(raw.as_str(), "__FIRE_THIS_IS_NONE");
    if chars_eq(&d, "Option<&str>") {
        if is_sent {
            Ok(ArgValue::Absent)
        } else {
            Ok(ArgValue::Text(clone_string(raw)))
        }
    } else if opt_wrapped(&d) {
        if is_sent {
            Ok(ArgValue::Absent)
        } else {
            let inner = subvec(&d, 7, d.len() - 1);
            match coerce_scalar(&inner, raw) {
                Some(v) => Ok(v),
                None => Err(FireError::TypeCoercionError { value: clone_string(raw) }),
            }
        }
    } else if chars_eq(&d, "&str") {
        if is_sent {
            Err(FireError::MissingRequiredArgument { name: clone_string(&def.name) })
        } else {
            Ok(ArgValue::Text(clone_string(raw)))
        }
    } else {
        if is_sent {
            Err(FireError::MissingRequiredArgument { name: clone_string(&def.name) })
        } else {
            match coerce_scalar(&d, raw) {
                Some(v) => Ok(v),
                None => Err(FireError::TypeCoercionError { value: clone_string(raw) }),
            }
        }
    }
}

/// A prefix of already-coerced values, glued onto the rest.
pub open spec fn prepend_values(
    prefix: Seq<ValueModel>,
    r: Result<Seq<ValueModel>, ErrSpec>,
) -> Result<Seq<ValueModel>, ErrSpec> {
    match r {
        Err(e) => Err(e),
        Ok(vs) => Ok(prefix + vs),
    }
}

/// Coerce every bound value, in declaration order; the first failure wins.
pub fn coerce_all(params: &Vec<ParamDef>, bound: &Vec<String>) -> (r: Result<
    Vec<ArgValue>,
    FireError,
>)
    requires
        bound@.len() == params@.len(),
    ensures
        match r {
            Ok(v) => spec_coerce_all(
                params@.map_values(|p: ParamDef| p@),
                bound@.map_values(|b: String| b@),
            ) == Ok::<_, ErrSpec>(v@.map_values(|a: ArgValue| a@)),
            Err(e) => spec_coerce_all(
                params@.map_values(|p: ParamDef| p@),
                bound@.map_values(|b: String| b@),
            ) == Err::<Seq<ValueModel>, _>(e@),
        },
{
    let ghost pviews = params@.map_values(|p: ParamDef| p@);
    let ghost bviews = bound@.map_values(|b: String| b@);
    let mut out: Vec<ArgValue> = Vec::new();
    let n = params.len();
    let mut i: usize = 0;
    proof {
        assert(out@.map_values(|a: ArgValue| a@) =~= Seq::<ValueModel>::empty());
        assert(pviews.skip(0) =~= pviews);
        assert(bviews.skip(0) =~= bviews);
        assert(forall|r: Result<Seq<ValueModel>, ErrSpec>| prepend_values(
            Seq::<ValueModel>::empty(),
            r,
        ) == r);
    }
    while i < n
        invariant
            0 <= i <= n,
            n == params@.len(),
            bound@.len() == n,
            pviews == params@.map_values(|p: ParamDef| p@),
            bviews == bound@.map_values(|b: String| b@),
            pviews.len() == n,
            bviews.len() == n,
            spec_coerce_all(pviews, bviews) == prepend_values(
                out@.map_values(|a: ArgValue| a@),
                spec_coerce_all(pviews.skip(i as int), bviews.skip(i as int)),
            ),
        decreases n - i,
    {
        let ghost pre = out@.map_values(|a: ArgValue| a@);
        proof {
            assert(pviews.skip(i as int)[0] == pviews[i as int]);
            assert(bviews.skip(i as int)[0] == bviews[i as int]);
            assert(pviews[i as int] == params@[i as int]@);
            assert(bviews[i as int] == bound@[i as int]@);
            assert(pviews.skip(i as int).drop_first() =~= pviews.skip(i as int + 1));
            assert(bviews.skip(i as int).drop_first() =~= bviews.skip(i as int + 1));
        }
        match coerce_one(&params[i], &bound[i]) {
            Err(e) => {
                return Err(e);
            },
            Ok(v) => {
                let ghost vm = v@;
                out.push(v);
                proof {
                    assert(out@.map_values(|a: ArgValue| a@) =~= pre.push(vm));
                    if spec_coerce_all(pviews.skip(i as int + 1), bviews.skip(i as int + 1))
                        is Ok {
                        let vs = spec_coerce_all(
                            pviews.skip(i as int + 1),
                            bviews.skip(i as int + 1),
                        )->Ok_0;
                        assert(pre + (seq![vm] + vs) =~= pre.push(vm) + vs);
                    }
                }
                i = i + 1;
            },
        }
    }
    proof {
        assert(pviews.skip(n as int).len() == 0);
        assert(spec_coerce_all(pviews.skip(n as int), bviews.skip(n as int)) == Ok::<_, ErrSpec>(
            Seq::<ValueModel>::empty(),
        ));
        assert(out@.map_values(|a: ArgValue| a@) + Seq::<ValueModel>::empty() =~= out@.map_values(
            |a: ArgValue| a@,
        ));
    }
    Ok(out)
}

} // verus!
