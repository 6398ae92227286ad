//! Character-sequence groundwork: finding a delimiter, splitting on it,
//! joining with it, and lexicographic order, each with an executable
//! counterpart proved against the specification.

use vstd::prelude::*;
use vstd::string::{StrSliceExecFns, StringExecFns};

verus! {

/// Index of the first occurrence of `c` in `s`, or -1 when `c` does not occur.
pub open spec fn find_char(s: Seq<char>, c: char) -> int
    decreases s.len(),
{
    if s.len() == 0 {
        -1
    } else if s[0] == c {
        0
    } else {
        let r = find_char(s.drop_first(), c);
        if r < 0 {
            -1
        } else {
            r + 1
        }
    }
}

/// `s` does not contain `c`.
pub open spec fn clean_of(s: Seq<char>, c: char) -> bool {
    find_char(s, c) < 0
}

pub proof fn lemma_find_char(s: Seq<char>, c: char)
    ensures
        find_char(s, c) >= 0 ==> find_char(s, c) < s.len() && s[find_char(s, c)] == c,
        find_char(s, c) >= 0 ==> forall|j: int| 0 <= j < find_char(s, c) ==> s[j] != c,
        find_char(s, c) < 0 ==> forall|j: int| 0 <= j < s.len() ==> s[j] != c,
    decreases s.len(),
{
    if s.len() == 0 {
    } else if s[0] == c {
    } else {
        lemma_find_char(s.drop_first(), c);
        assert(forall|j: int| 1 <= j < s.len() ==> s[j] == s.drop_first()[j - 1]);
    }
}

pub proof fn lemma_find_char_is(s: Seq<char>, c: char, i: int)
    requires
        0 <= i < s.len(),
        s[i] == c,
        forall|j: int| 0 <= j < i ==> s[j] != c,
    ensures
        find_char(s, c) == i,
    decreases s.len(),
{
    if i > 0 {
        assert(forall|j: int| 0 <= j < i - 1 ==> s.drop_first()[j] == s[j + 1]);
        lemma_find_char_is(s.drop_first(), c, i - 1);
    }
}

pub proof fn lemma_find_char_none(s: Seq<char>, c: char)
    requires
        forall|j: int| 0 <= j < s.len() ==> s[j] != c,
    ensures
        find_char(s, c) == -1,
    decreases s.len(),
{
    if s.len() > 0 {
        assert(forall|j: int| 0 <= j < s.drop_first().len() ==> s.drop_first()[j] == s[j + 1]);
        lemma_find_char_none(s.drop_first(), c);
    }
}

/// Finding `c` in `p + q` skips a `c`-free prefix `p` entirely.
pub proof fn lemma_find_char_concat(p: Seq<char>, q: Seq<char>, c: char)
    requires
        clean_of(p, c),
    ensures
        find_char(p + q, c) == if find_char(q, c) < 0 {
            -1int
        } else {
            p.len() + find_char(q, c)
        },
    decreases p.len(),
{
    lemma_find_char(p, c);
    if p.len() == 0 {
        assert(p + q =~= q);
    } else {
        assert((p + q)[0] == p[0]);
        assert((p + q).drop_first() =~= p.drop_first() + q);
        lemma_find_char_none(p.drop_first(), c);
        lemma_find_char_concat(p.drop_first(), q, c);
    }
}

/// Splitting on `c`: the pieces between occurrences, in order. A string
/// without `c` yields itself as the single piece (so the empty string yields
/// one empty piece).
pub open spec fn split_char(s: Seq<char>, c: char) -> Seq<Seq<char>>
    decreases s.len(),
{
    let i = find_char(s, c);
    if 0 <= i < s.len() {
        seq![s.take(i)] + split_char(s.skip(i + 1), c)
    } else {
        seq![s]
    }
}

/// Joining pieces with `c` between each neighbouring pair.
pub open spec fn join_char(parts: Seq<Seq<char>>, c: char) -> Seq<char>
    decreases parts.len(),
{
    if parts.len() == 0 {
        Seq::empty()
    } else if parts.len() == 1 {
        parts[0]
    } else {
        parts[0] + seq![c] + join_char(parts.drop_first(), c)
    }
}

/// Appending one more piece extends the join by one delimiter and the piece.
pub proof fn lemma_join_push(parts: Seq<Seq<char>>, c: char, p: Seq<char>)
    ensures
        join_char(parts.push(p), c) == if parts.len() == 0 {
            p
        } else {
            join_char(parts, c) + seq![c] + p
        },
    decreases parts.len(),
{
    if parts.len() == 0 {
        assert(parts.push(p) =~= seq![p]);
        assert(join_char(seq![p], c) == p);
    } else if parts.len() == 1 {
        let w = parts.push(p);
        assert(w.len() == 2);
        assert(w.drop_first() =~= seq![p]);
        assert(join_char(w, c) == w[0] + seq![c] + join_char(w.drop_first(), c));
        assert(join_char(w.drop_first(), c) == p);
        assert(w[0] == parts[0]);
        assert(join_char(parts, c) == parts[0]);
    } else {
        let w = parts.push(p);
        assert(w.drop_first() =~= parts.drop_first().push(p));
        lemma_join_push(parts.drop_first(), c, p);
        assert(join_char(w, c) == w[0] + seq![c] + join_char(w.drop_first(), c));
        assert(join_char(w.drop_first(), c) == join_char(parts.drop_first(), c) + seq![c] + p);
        assert(w[0] == parts[0]);
        assert(parts[0] + seq![c] + (join_char(parts.drop_first(), c) + seq![c] + p) =~= (parts[0]
            + seq![c] + join_char(parts.drop_first(), c)) + seq![c] + p);
    }
}

/// Splitting undoes joining, as long as no piece contains the delimiter.
pub proof fn lemma_split_join(parts: Seq<Seq<char>>, c: char)
    requires
        parts.len() > 0,
        forall|i: int| 0 <= i < parts.len() ==> clean_of(#[trigger] parts[i], c),
    ensures
        split_char(join_char(parts, c), c) == parts,
    decreases parts.len(),
{
    if parts.len() == 1 {
        assert(clean_of(parts[0], c));
        assert(split_char(join_char(parts, c), c) =~= parts);
    } else {
        let head = parts[0];
        let rest = join_char(parts.drop_first(), c);
        let s = join_char(parts, c);
        assert(s == head + seq![c] + rest);
        assert(s =~= head + (seq![c] + rest));
        lemma_find_char_concat(head, seq![c] + rest, c);
        assert((seq![c] + rest)[0] == c);
        assert(find_char(seq![c] + rest, c) == 0);
        let i = find_char(s, c);
        assert(i == head.len());
        assert(s.take(i) =~= head);
        assert(s.skip(i + 1) =~= rest);
        lemma_split_join(parts.drop_first(), c);
        assert(split_char(s, c) == seq![head] + parts.drop_first());
        assert(seq![head] + parts.drop_first() =~= parts);
    }
}

/// Strict lexicographic order on character sequences, by code point; the
/// order in which Rust compares `str` values.
pub open spec fn lex_lt(a: Seq<char>, b: Seq<char>) -> bool
    decreases b.len(),
{
    if b.len() == 0 {
        false
    } else if a.len() == 0 {
        true
    } else if (a[0] as u32) < (b[0] as u32) {
        true
    } else if (b[0] as u32) < (a[0] as u32) {
        false
    } else {
        lex_lt(a.drop_first(), b.drop_first())
    }
}

/// Two characters with the same code point are the same character.
pub proof fn lemma_char_eq(c1: char, c2: char)
    requires
        (c1 as u32) == (c2 as u32),
    ensures
        c1 == c2,
{
    vstd::utf8::char_u32_cast(c1, c1 as u32);
    vstd::utf8::char_u32_cast(c2, c2 as u32);
}

pub proof fn lemma_lex_irrefl(a: Seq<char>)
    ensures
        !lex_lt(a, a),
    decreases a.len(),
{
    if a.len() > 0 {
        lemma_lex_irrefl(a.drop_first());
    }
}

pub proof fn lemma_lex_total(a: Seq<char>, b: Seq<char>)
    ensures
        lex_lt(a, b) || lex_lt(b, a) || a == b,
        !(lex_lt(a, b) && lex_lt(b, a)),
        lex_lt(a, b) ==> a != b,
    decreases b.len(),
{
    lemma_lex_irrefl(a);
    lemma_lex_irrefl(b);
    if a.len() == 0 || b.len() == 0 {
        if a.len() == 0 && b.len() == 0 {
            assert(a =~= b);
        }
    } else {
        lemma_lex_total(a.drop_first(), b.drop_first());
        if (a[0] as u32) < (b[0] as u32) {
        } else if (b[0] as u32) < (a[0] as u32) {
        } else {
            assert((a[0] as u32) == (b[0] as u32));
            lemma_char_eq(a[0], b[0]);
            if a.drop_first() == b.drop_first() {
                assert(a.len() == a.drop_first().len() + 1);
                assert(b.len() == b.drop_first().len() + 1);
                assert forall|j: int| 0 <= j < a.len() implies a[j] == b[j] by {
                    if j > 0 {
                        assert(a[j] == a.drop_first()[j - 1]);
                        assert(b[j] == b.drop_first()[j - 1]);
                    }
                }
                assert(a =~= b);
            }
        }
    }
}

pub proof fn lemma_lex_trans(a: Seq<char>, b: Seq<char>, c: Seq<char>)
    requires
        lex_lt(a, b),
        lex_lt(b, c),
    ensures
        lex_lt(a, c),
    decreases c.len(),
{
    if a.len() == 0 || b.len() == 0 || c.len() == 0 {
    } else {
        if (a[0] as u32) == (b[0] as u32) && (b[0] as u32) == (c[0] as u32) {
            lemma_lex_trans(a.drop_first(), b.drop_first(), c.drop_first());
        }
    }
}

/// When `a` and `b` agree on their first `i` characters, their order is
/// decided by the remainders.
pub proof fn lemma_lex_skip(a: Seq<char>, b: Seq<char>, i: int)
    requires
        0 <= i <= a.len(),
        i <= b.len(),
        forall|j: int| 0 <= j < i ==> a[j] == b[j],
    ensures
        lex_lt(a, b) == lex_lt(a.skip(i), b.skip(i)),
    decreases i,
{
    if i > 0 {
        assert(a.len() > 0 && b.len() > 0);
        assert(a[0] == b[0]);
        assert(forall|j: int| 0 <= j < i - 1 ==> a.drop_first()[j] == a[j + 1]
            && b.drop_first()[j] == b[j + 1]);
        lemma_lex_skip(a.drop_first(), b.drop_first(), i - 1);
        assert(a.drop_first().skip(i - 1) =~= a.skip(i));
        assert(b.drop_first().skip(i - 1) =~= b.skip(i));
    } else {
        assert(a.skip(0) =~= a);
        assert(b.skip(0) =~= b);
    }
}

/// The views of a sequence of owned strings.
pub open spec fn views_of(ss: Seq<String>) -> Seq<Seq<char>> {
    ss.map_values(|s: String| s@)
}

/// The views of a sequence of (name, value) string pairs.
pub open spec fn pair_views(ps: Seq<(String, String)>) -> Seq<(Seq<char>, Seq<char>)> {
    ps.map_values(|p: (String, String)| (p.0@, p.1@))
}

// ---------------------------------------------------------------------------
// Executable counterparts.
// ---------------------------------------------------------------------------

/// Character-wise string equality.
pub fn str_eq(a: &str, b: &str) -> (r: bool)
    ensures
        r == (a@ == b@),
{
    let la: usize = a.unicode_len();
    let lb: usize = b.unicode_len();
    if la != lb {
        return false;
    }
    let mut i: usize = 0;
    while i < la
        invariant
            0 <= i <= la,
            la == a@.len(),
            lb == b@.len(),
            la == lb,
            forall|j: int| 0 <= j < i ==> a@[j] == b@[j],
        decreases la - i,
    {
        if a.get_char(i) != b.get_char(i) {
            return false;
        }
        i = i + 1;
    }
    proof {
        assert(a@ =~= b@);
    }
    true
}

/// Character-wise lexicographic comparison.
pub fn str_lt(a: &str, b: &str) -> (r: bool)
    ensures
        r == lex_lt(a@, b@),
{
    let la: usize = a.unicode_len();
    let lb: usize = b.unicode_len();
    let mut i: usize = 0;
    while i < la && i < lb
        invariant
            0 <= i <= la,
            0 <= i <= lb,
            la == a@.len(),
            lb == b@.len(),
            forall|j: int| 0 <= j < i ==> a@[j] == b@[j],
        decreases la - i,
    {
        let ca = a.get_char(i);
        let cb = b.get_char(i);
        if (ca as u32) < (cb as u32) {
            proof {
                lemma_lex_skip(a@, b@, i as int);
            }
            return true;
        }
        if (cb as u32) < (ca as u32) {
            proof {
                lemma_lex_skip(a@, b@, i as int);
            }
            return false;
        }
        i = i + 1;
    }
    proof {
        lemma_lex_skip(a@, b@, i as int);
    }
    la < lb
}

/// Index of the first occurrence of `c` in `s`.
pub fn find_in(s: &str, c: char) -> (r: Option<usize>)
    ensures
        match r {
            Some(i) => find_char(s@, c) == i as int,
            None => find_char(s@, c) == -1,
        },
{
    let n: usize = s.unicode_len();
    let mut i: usize = 0;
    while i < n
        invariant
            0 <= i <= n,
            n == s@.len(),
            forall|j: int| 0 <= j < i ==> s@[j] != c,
        decreases n - i,
    {
        if s.get_char(i) == c {
            proof {
                lemma_find_char_is(s@, c, i as int);
            }
            return Some(i);
        }
        i = i + 1;
    }
    proof {
        lemma_find_char_none(s@, c);
    }
    None
}

/// The pieces before and after the first occurrence of `c`, when there is one.
pub fn split_once_at<'a>(s: &'a str, c: char) -> (r: Option<(&'a str, &'a str)>)
    ensures
        match r {
            Some(pq) => {
                &&& find_char(s@, c) >= 0
                &&& pq.0@ == s@.take(find_char(s@, c))
                &&& pq.1@ == s@.skip(find_char(s@, c) + 1)
            },
            None => find_char(s@, c) == -1,
        },
{
    let n: usize = s.unicode_len();
    match find_in(s, c) {
        Some(i) => {
            proof {
                lemma_find_char(s@, c);
            }
            let p = s.substring_char(0, i);
            let q = s.substring_char(i + 1, n);
            proof {
                assert(p@ =~= s@.take(i as int));
                assert(q@ =~= s@.skip(i as int + 1));
            }
            Some((p, q))
        },
        None => None,
    }
}

/// An owned copy of a string slice.
pub fn string_of(s: &str) -> (r: String)
    ensures
        r@ == s@,
{
    String::from_str(s)
}

/// An owned copy of a string.
pub fn clone_string(s: &String) -> (r: String)
    ensures
        r@ == s@,
{
    String::from_str(s.as_str())
}

} // verus!
