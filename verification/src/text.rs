//! Character-level utilities shared by the parser and the formatter:
//! whitespace trimming, separator search, and splitting and joining on a
//! separator character.

use vstd::prelude::*;
use vstd::string::StrSliceExecFns;

verus! {

/// Whitespace that is insignificant at the ends of a logical line, a key,
/// or a raw value.  Newlines never occur inside a logical line, so they are
/// not listed here.
pub open spec fn is_ws(c: char) -> bool {
    c == ' ' || c == '\t' || c == '\r'
}

/// `s` without its leading whitespace.
pub open spec fn trim_start(s: Seq<char>) -> Seq<char>
    decreases s.len(),
{
    if s.len() > 0 && is_ws(s[0]) {
        trim_start(s.drop_first())
    } else {
        s
    }
}

/// `s` without its trailing whitespace.
pub open spec fn trim_end(s: Seq<char>) -> Seq<char>
    decreases s.len(),
{
    if s.len() > 0 && is_ws(s.last()) {
        trim_end(s.drop_last())
    } else {
        s
    }
}

/// `s` without leading or trailing whitespace.
pub open spec fn trim(s: Seq<char>) -> Seq<char> {
    trim_end(trim_start(s))
}

/// Whether `c` counts as trimmable whitespace.
pub fn is_ws_char(c: char) -> (b: bool)
    ensures
        b == is_ws(c),
{
    c == ' ' || c == '\t' || c == '\r'
}

/// Narrows the range `[a, b)` of `v` to the range that holds the trimmed
/// text: the same characters with leading and trailing whitespace left out.
pub fn trim_range(v: &Vec<char>, a: usize, b: usize) -> (r: (usize, usize))
    requires
        a <= b <= v@.len(),
    ensures
        a <= r.0 <= r.1 <= b,
        v@.subrange(r.0 as int, r.1 as int) == trim(v@.subrange(a as int, b as int)),
{
    let ghost s0 = v@.subrange(a as int, b as int);
    let mut lo: usize = a;
    while lo < b && is_ws_char(v[lo])
        invariant
            a <= lo <= b <= v@.len(),
            trim_start(v@.subrange(lo as int, b as int)) == trim_start(s0),
            s0 == v@.subrange(a as int, b as int),
        decreases b - lo,
    {
        proof {
            let s = v@.subrange(lo as int, b as int);
            assert(s[0] == v@[lo as int]);
            assert(s.drop_first() =~= v@.subrange(lo as int + 1, b as int));
        }
        lo = lo + 1;
    }
    proof {
        let s = v@.subrange(lo as int, b as int);
        assert(trim_start(s) == s);
    }
    let mut hi: usize = b;
    while lo < hi && is_ws_char(v[hi - 1])
        invariant
            a <= lo <= hi <= b <= v@.len(),
            trim_end(v@.subrange(lo as int, hi as int)) == trim_end(v@.subrange(lo as int, b as int)),
        decreases hi,
    {
        proof {
            let s = v@.subrange(lo as int, hi as int);
            assert(s.last() == v@[hi - 1]);
            assert(s.drop_last() =~= v@.subrange(lo as int, hi as int - 1));
        }
        hi = hi - 1;
    }
    proof {
        let s = v@.subrange(lo as int, hi as int);
        assert(trim_end(s) == s);
        assert(trim(v@.subrange(a as int, b as int)) == trim_end(trim_start(s0)));
    }
    (lo, hi)
}

/// Index of the first occurrence of `c` in `s`, or `s.len()` when `c` does
/// not occur.
pub open spec fn first_index_of(s: Seq<char>, c: char) -> int
    decreases s.len(),
{
    if s.len() == 0 {
        0
    } else if s[0] == c {
        0
    } else {
        1 + first_index_of(s.drop_first(), c)
    }
}

pub proof fn lemma_first_index_of(s: Seq<char>, c: char)
    ensures
        0 <= first_index_of(s, c) <= s.len(),
        forall|i: int| 0 <= i < first_index_of(s, c) ==> s[i] != c,
        first_index_of(s, c) < s.len() ==> s[first_index_of(s, c)] == c,
    decreases s.len(),
{
    if s.len() > 0 && s[0] != c {
        lemma_first_index_of(s.drop_first(), c);
        assert forall|i: int| 0 <= i < first_index_of(s, c) implies s[i] != c by {
            if i > 0 {
                assert(s.drop_first()[i - 1] == s[i]);
            }
        }
    }
}

/// A position that holds `c` with no earlier occurrence is the first index.
pub proof fn lemma_first_index_of_is(s: Seq<char>, c: char, j: int)
    requires
        0 <= j <= s.len(),
        forall|i: int| 0 <= i < j ==> s[i] != c,
        j < s.len() ==> s[j] == c,
    ensures
        first_index_of(s, c) == j,
    decreases s.len(),
{
    if s.len() > 0 && s[0] != c {
        assert(j != 0);
        lemma_first_index_of_is(s.drop_first(), c, j - 1);
    }
}

/// The tokens of `s` between occurrences of `sep`.  Splitting always yields
/// one more token than there are separators; tokens may be empty.
pub open spec fn split_on(s: Seq<char>, sep: char) -> Seq<Seq<char>>
    decreases s.len(),
{
    if s.len() == 0 {
        seq![Seq::<char>::empty()]
    } else if s[0] == sep {
        seq![Seq::<char>::empty()] + split_on(s.drop_first(), sep)
    } else {
        let rest = split_on(s.drop_first(), sep);
        seq![seq![s[0]] + rest[0]] + rest.drop_first()
    }
}

pub proof fn lemma_split_on_len(s: Seq<char>, sep: char)
    ensures
        split_on(s, sep).len() >= 1,
    decreases s.len(),
{
    if s.len() > 0 {
        lemma_split_on_len(s.drop_first(), sep);
    }
}

/// Splitting text free of the separator yields that text as the one token.
pub proof fn lemma_split_on_no_sep(s: Seq<char>, sep: char)
    requires
        forall|i: int| 0 <= i < s.len() ==> s[i] != sep,
    ensures
        split_on(s, sep) == seq![s],
    decreases s.len(),
{
    if s.len() == 0 {
        assert(split_on(s, sep) =~~= seq![s]);
    } else {
        lemma_split_on_no_sep(s.drop_first(), sep);
        assert(seq![s[0]] + s.drop_first() =~= s);
        assert(split_on(s, sep) =~~= seq![s]);
    }
}

/// Splitting at the first separator peels off one token.
pub proof fn lemma_split_on_at(s: Seq<char>, sep: char, j: int)
    requires
        0 <= j < s.len(),
        s[j] == sep,
        forall|i: int| 0 <= i < j ==> s[i] != sep,
    ensures
        split_on(s, sep) == seq![s.take(j)] + split_on(s.skip(j + 1), sep),
    decreases j,
{
    if j == 0 {
        assert(s.take(0) =~= Seq::<char>::empty());
        assert(s.skip(1) =~= s.drop_first());
        assert(split_on(s, sep) =~~= seq![s.take(0)] + split_on(s.skip(1), sep));
    } else {
        let s1 = s.drop_first();
        assert(s1[j - 1] == s[j]);
        assert forall|i: int| 0 <= i < j - 1 implies s1[i] != sep by {
            assert(s1[i] == s[i + 1]);
        }
        lemma_split_on_at(s1, sep, j - 1);
        lemma_split_on_len(s1.skip(j), sep);
        assert(seq![s[0]] + s1.take(j - 1) =~= s.take(j));
        assert(s1.skip(j) =~= s.skip(j + 1));
        assert(split_on(s, sep) =~~= seq![s.take(j)] + split_on(s.skip(j + 1), sep));
    }
}

/// No token produced by splitting contains the separator.
pub proof fn lemma_split_on_tokens(s: Seq<char>, sep: char)
    ensures
        forall|k: int, i: int|
            0 <= k < split_on(s, sep).len() && 0 <= i < split_on(s, sep)[k].len()
                ==> split_on(s, sep)[k][i] != sep,
    decreases s.len(),
{
    if s.len() > 0 {
        lemma_split_on_tokens(s.drop_first(), sep);
        let rest = split_on(s.drop_first(), sep);
        lemma_split_on_len(s.drop_first(), sep);
        if s[0] != sep {
            let r = split_on(s, sep);
            assert forall|k: int, i: int|
                0 <= k < r.len() && 0 <= i < r[k].len() implies r[k][i] != sep by {
                if k == 0 {
                    if i > 0 {
                        assert(r[0][i] == rest[0][i - 1]);
                    }
                } else {
                    assert(r[k] == rest[k]);
                }
            }
        }
    }
}

/// Splitting never introduces a character the text did not hold.
pub proof fn lemma_split_on_avoid(s: Seq<char>, sep: char, c: char)
    requires
        forall|i: int| 0 <= i < s.len() ==> s[i] != c,
    ensures
        forall|k: int, i: int|
            0 <= k < split_on(s, sep).len() && 0 <= i < split_on(s, sep)[k].len()
                ==> split_on(s, sep)[k][i] != c,
    decreases s.len(),
{
    if s.len() > 0 {
        assert forall|i: int| 0 <= i < s.drop_first().len() implies s.drop_first()[i] != c by {
            assert(s.drop_first()[i] == s[i + 1]);
        }
        lemma_split_on_avoid(s.drop_first(), sep, c);
        let rest = split_on(s.drop_first(), sep);
        lemma_split_on_len(s.drop_first(), sep);
        let r = split_on(s, sep);
        assert forall|k: int, i: int|
            0 <= k < r.len() && 0 <= i < r[k].len() implies r[k][i] != c by {
            if s[0] == sep {
                if k > 0 {
                    assert(r[k] == rest[k - 1]);
                }
            } else {
                if k == 0 {
                    if i > 0 {
                        assert(r[0][i] == rest[0][i - 1]);
                    }
                } else {
                    assert(r[k] == rest[k]);
                }
            }
        }
    }
}

/// The tokens rejoined with `sep` between each pair.
pub open spec fn join(toks: Seq<Seq<char>>, sep: char) -> Seq<char>
    decreases toks.len(),
{
    if toks.len() == 0 {
        Seq::<char>::empty()
    } else if toks.len() == 1 {
        toks[0]
    } else {
        toks[0] + seq![sep] + join(toks.drop_first(), sep)
    }
}

/// Joining undoes splitting, whatever the text.
pub proof fn lemma_join_split_on(s: Seq<char>, sep: char)
    ensures
        join(split_on(s, sep), sep) == s,
    decreases s.len(),
{
    if s.len() == 0 {
        assert(join(split_on(s, sep), sep) =~= s);
    } else {
        lemma_join_split_on(s.drop_first(), sep);
        let rest = split_on(s.drop_first(), sep);
        lemma_split_on_len(s.drop_first(), sep);
        if s[0] == sep {
            let r = split_on(s, sep);
            assert(r == seq![Seq::<char>::empty()] + rest);
            assert(r.len() >= 2);
            assert(r[0] == Seq::<char>::empty());
            assert(r.drop_first() =~= rest);
            assert(join(r, sep) == Seq::<char>::empty() + seq![sep] + join(rest, sep));
            assert(Seq::<char>::empty() + seq![sep] + s.drop_first() =~= s);
        } else {
            let r = split_on(s, sep);
            assert(r[0] == seq![s[0]] + rest[0]);
            if rest.len() == 1 {
                assert(r.len() == 1) by {
                    assert(rest.drop_first() =~= Seq::<Seq<char>>::empty());
                }
                assert(join(rest, sep) == rest[0]);
                assert(join(r, sep) == seq![s[0]] + rest[0]);
                assert(seq![s[0]] + s.drop_first() =~= s);
            } else {
                assert(r.drop_first() =~= rest.drop_first());
                assert(r.len() >= 2) by {
                    assert(r.drop_first().len() == rest.drop_first().len());
                }
                assert(join(r, sep) == (seq![s[0]] + rest[0]) + seq![sep] + join(
                    rest.drop_first(),
                    sep,
                ));
                assert(join(rest, sep) == rest[0] + seq![sep] + join(rest.drop_first(), sep));
                assert((seq![s[0]] + rest[0]) + seq![sep] + join(rest.drop_first(), sep)
                    =~= seq![s[0]] + (rest[0] + seq![sep] + join(rest.drop_first(), sep)));
                assert(seq![s[0]] + s.drop_first() =~= s);
            }
        }
    }
}

/// Splitting undoes joining, as long as no token contains the separator.
pub proof fn lemma_split_on_join(toks: Seq<Seq<char>>, sep: char)
    requires
        toks.len() >= 1,
        forall|k: int, i: int|
            0 <= k < toks.len() && 0 <= i < toks[k].len() ==> toks[k][i] != sep,
    ensures
        split_on(join(toks, sep), sep) == toks,
    decreases toks.len(),
{
    if toks.len() == 1 {
        lemma_split_on_no_sep(toks[0], sep);
        assert(split_on(join(toks, sep), sep) =~~= toks);
    } else {
        let t0 = toks[0];
        let s = join(toks, sep);
        let rest = toks.drop_first();
        assert forall|k: int, i: int|
            0 <= k < rest.len() && 0 <= i < rest[k].len() implies rest[k][i] != sep by {
            assert(rest[k] == toks[k + 1]);
        }
        lemma_split_on_join(rest, sep);
        assert forall|i: int| 0 <= i < t0.len() implies s[i] != sep by {
            assert(s[i] == t0[i]);
        }
        assert(s[t0.len() as int] == sep);
        lemma_split_on_at(s, sep, t0.len() as int);
        assert(s.take(t0.len() as int) =~= t0);
        assert(s.skip(t0.len() as int + 1) =~= join(rest, sep));
        assert(split_on(s, sep) =~~= toks);
    }
}

pub proof fn lemma_trim_start_len(s: Seq<char>)
    ensures
        trim_start(s).len() <= s.len(),
        trim_start(s).len() == s.len() ==> trim_start(s) == s,
    decreases s.len(),
{
    if s.len() > 0 && is_ws(s[0]) {
        lemma_trim_start_len(s.drop_first());
    }
}

pub proof fn lemma_trim_end_len(s: Seq<char>)
    ensures
        trim_end(s).len() <= s.len(),
        trim_end(s).len() == s.len() ==> trim_end(s) == s,
    decreases s.len(),
{
    if s.len() > 0 && is_ws(s.last()) {
        lemma_trim_end_len(s.drop_last());
    }
}

/// Text equal to its own trimming sheds nothing from either end.
pub proof fn lemma_trim_parts(s: Seq<char>)
    requires
        trim(s) == s,
    ensures
        trim_start(s) == s,
        trim_end(s) == s,
{
    lemma_trim_start_len(s);
    lemma_trim_end_len(trim_start(s));
    assert(trim_start(s).len() == s.len());
}

/// Trimming strips nothing from text that starts and ends off-whitespace.
pub proof fn lemma_trim_nonws(s: Seq<char>)
    requires
        s.len() > 0,
        !is_ws(s[0]),
        !is_ws(s.last()),
    ensures
        trim(s) == s,
{
    assert(trim_start(s) == s);
    assert(trim_end(s) == s);
}

/// A trailing whitespace character falls to trimming.
pub proof fn lemma_trim_end_drop(s: Seq<char>, c: char)
    requires
        is_ws(c),
    ensures
        trim_end(s.push(c)) == trim_end(s),
{
    assert(s.push(c).last() == c);
    assert(s.push(c).drop_last() =~= s);
}

pub proof fn lemma_trim_start_idem(s: Seq<char>)
    ensures
        trim_start(trim_start(s)) == trim_start(s),
    decreases s.len(),
{
    if s.len() > 0 && is_ws(s[0]) {
        lemma_trim_start_idem(s.drop_first());
    }
}

pub proof fn lemma_trim_end_idem(s: Seq<char>)
    ensures
        trim_end(trim_end(s)) == trim_end(s),
    decreases s.len(),
{
    if s.len() > 0 && is_ws(s.last()) {
        lemma_trim_end_idem(s.drop_last());
    }
}

/// Trimming the end keeps a prefix of the text.
pub proof fn lemma_trim_end_prefix(s: Seq<char>)
    ensures
        trim_end(s).len() <= s.len(),
        forall|i: int| 0 <= i < trim_end(s).len() ==> trim_end(s)[i] == s[i],
    decreases s.len(),
{
    if s.len() > 0 && is_ws(s.last()) {
        lemma_trim_end_prefix(s.drop_last());
        assert forall|i: int| 0 <= i < trim_end(s).len() implies trim_end(s)[i] == s[i] by {
            assert(trim_end(s)[i] == trim_end(s.drop_last())[i]);
            assert(s.drop_last()[i] == s[i]);
        }
    }
}

/// Trimming already-trimmed text changes nothing.
pub proof fn lemma_trim_idem(s: Seq<char>)
    ensures
        trim(trim(s)) == trim(s),
{
    let x = trim_start(s);
    lemma_trim_start_idem(s);
    lemma_trim_end_prefix(x);
    lemma_trim_end_idem(x);
    let y = trim_end(x);
    if y.len() == 0 {
        assert(trim_start(y) == y);
    } else {
        assert(y[0] == x[0]);
        assert(x.len() > 0);
        assert(!is_ws(x[0])) by {
            if is_ws(x[0]) {
                lemma_trim_start_len(x.drop_first());
                assert(trim_start(x) == trim_start(x.drop_first()));
                assert(false);
            }
        }
        assert(trim_start(y) == y);
    }
}

pub proof fn lemma_trim_start_avoid(s: Seq<char>, c: char)
    requires
        forall|i: int| 0 <= i < s.len() ==> s[i] != c,
    ensures
        forall|i: int| 0 <= i < trim_start(s).len() ==> trim_start(s)[i] != c,
    decreases s.len(),
{
    if s.len() > 0 && is_ws(s[0]) {
        assert forall|i: int| 0 <= i < s.drop_first().len() implies s.drop_first()[i] != c by {
            assert(s.drop_first()[i] == s[i + 1]);
        }
        lemma_trim_start_avoid(s.drop_first(), c);
        assert forall|i: int| 0 <= i < trim_start(s).len() implies trim_start(s)[i] != c by {
            assert(trim_start(s)[i] == trim_start(s.drop_first())[i]);
        }
    }
}

/// Trimming never introduces a character the text did not hold.
pub proof fn lemma_trim_avoid(s: Seq<char>, c: char)
    requires
        forall|i: int| 0 <= i < s.len() ==> s[i] != c,
    ensures
        forall|i: int| 0 <= i < trim(s).len() ==> trim(s)[i] != c,
{
    lemma_trim_start_avoid(s, c);
    lemma_trim_end_prefix(trim_start(s));
    assert forall|i: int| 0 <= i < trim(s).len() implies trim(s)[i] != c by {
        assert(trim(s)[i] == trim_start(s)[i]);
    }
}

/// Non-empty text equal to its own trimming starts and ends off-whitespace.
pub proof fn lemma_trimmed_ends(s: Seq<char>)
    requires
        trim(s) == s,
        s.len() > 0,
    ensures
        !is_ws(s[0]),
        !is_ws(s.last()),
{
    lemma_trim_parts(s);
    if is_ws(s[0]) {
        lemma_trim_start_len(s.drop_first());
        assert(trim_start(s) == trim_start(s.drop_first()));
        assert(false);
    }
    if is_ws(s.last()) {
        lemma_trim_end_len(s.drop_last());
        assert(trim_end(s) == trim_end(s.drop_last()));
        assert(false);
    }
}

/// Tokens that avoid a character other than the separator join into text
/// that avoids it too.
pub proof fn lemma_join_avoid(toks: Seq<Seq<char>>, sep: char, c: char)
    requires
        c != sep,
        forall|k: int, i: int|
            0 <= k < toks.len() && 0 <= i < toks[k].len() ==> toks[k][i] != c,
    ensures
        forall|i: int| 0 <= i < join(toks, sep).len() ==> join(toks, sep)[i] != c,
    decreases toks.len(),
{
    if toks.len() <= 1 {
    } else {
        let rest = toks.drop_first();
        assert forall|k: int, i: int|
            0 <= k < rest.len() && 0 <= i < rest[k].len() implies rest[k][i] != c by {
            assert(rest[k] == toks[k + 1]);
        }
        lemma_join_avoid(rest, sep, c);
        let j = join(toks, sep);
        let t0 = toks[0];
        assert forall|i: int| 0 <= i < j.len() implies j[i] != c by {
            if i < t0.len() {
                assert(j[i] == t0[i]);
            } else if i == t0.len() {
                assert(j[i] == sep);
            } else {
                assert(j[i] == join(rest, sep)[i - t0.len() - 1]);
            }
        }
    }
}

/// Lexicographic order on character sequences, by code point.  For text
/// encoded as UTF-8 this agrees with byte-wise comparison.
pub open spec fn lex_le(a: Seq<char>, b: Seq<char>) -> bool
    decreases a.len(),
{
    if a.len() == 0 {
        true
    } else if b.len() == 0 {
        false
    } else if (a[0] as u32) < (b[0] as u32) {
        true
    } else if (b[0] as u32) < (a[0] as u32) {
        false
    } else {
        lex_le(a.drop_first(), b.drop_first())
    }
}

pub proof fn lemma_lex_le_total(a: Seq<char>, b: Seq<char>)
    ensures
        lex_le(a, b) || lex_le(b, a),
    decreases a.len(),
{
    if a.len() > 0 && b.len() > 0 && !((a[0] as u32) < (b[0] as u32)) && !((b[0] as u32) < (a[0]
        as u32)) {
        lemma_lex_le_total(a.drop_first(), b.drop_first());
    }
}

pub proof fn lemma_lex_le_trans(a: Seq<char>, b: Seq<char>, c: Seq<char>)
    requires
        lex_le(a, b),
        lex_le(b, c),
    ensures
        lex_le(a, c),
    decreases a.len(),
{
    if a.len() > 0 && b.len() > 0 && c.len() > 0 && (a[0] as u32) == (b[0] as u32) && (b[0] as u32)
        == (c[0] as u32) {
        lemma_lex_le_trans(a.drop_first(), b.drop_first(), c.drop_first());
    }
}

/// Whether `a` orders at or before `b` lexicographically.
pub fn str_lex_le(a: &str, b: &str) -> (r: bool)
    ensures
        r == lex_le(a@, b@),
{
    let an = a.unicode_len();
    let bn = b.unicode_len();
    let mut i: usize = 0;
    proof {
        assert(a@.skip(0) =~= a@);
        assert(b@.skip(0) =~= b@);
    }
    loop
        invariant
            i <= an,
            i <= bn,
            an == a@.len(),
            bn == b@.len(),
            lex_le(a@, b@) == lex_le(a@.skip(i as int), b@.skip(i as int)),
            lex_le(b@, a@) == lex_le(b@.skip(i as int), a@.skip(i as int)),
        decreases an - i,
    {
        if i == an {
            proof {
                assert(a@.skip(i as int).len() == 0);
            }
            return true;
        }
        if i == bn {
            proof {
                assert(b@.skip(i as int).len() == 0);
                assert(a@.skip(i as int).len() > 0);
            }
            return false;
        }
        let ca = a.get_char(i);
        let cb = b.get_char(i);
        proof {
            assert(a@.skip(i as int)[0] == a@[i as int]);
            assert(b@.skip(i as int)[0] == b@[i as int]);
        }
        let cau = ca as u32;
        let cbu = cb as u32;
        if cau < cbu {
            return true;
        }
        if cbu < cau {
            return false;
        }
        proof {
            assert(a@.skip(i as int).drop_first() =~= a@.skip(i as int + 1));
            assert(b@.skip(i as int).drop_first() =~= b@.skip(i as int + 1));
        }
        i = i + 1;
    }
}

/// First position of `c` in `v[a..b)`, or `b` when `c` does not occur there.
pub fn find_in_range(v: &Vec<char>, a: usize, b: usize, c: char) -> (j: usize)
    requires
        a <= b <= v@.len(),
    ensures
        a <= j <= b,
        forall|i: int| a <= i < j ==> v@[i] != c,
        j < b ==> v@[j as int] == c,
{
    let mut j: usize = a;
    while j < b && v[j] != c
        invariant
            a <= j <= b <= v@.len(),
            forall|i: int| a <= i < j ==> v@[i] != c,
        decreases b - j,
    {
        j = j + 1;
    }
    j
}

/// The characters of `v[a..b)` as a fresh vector.
pub fn copy_range(v: &Vec<char>, a: usize, b: usize) -> (r: Vec<char>)
    requires
        a <= b <= v@.len(),
    ensures
        r@ == v@.subrange(a as int, b as int),
{
    let mut r: Vec<char> = Vec::new();
    let mut i: usize = a;
    while i < b
        invariant
            a <= i <= b <= v@.len(),
            r@ == v@.subrange(a as int, i as int),
        decreases b - i,
    {
        r.push(v[i]);
        proof {
            assert(v@.subrange(a as int, i as int).push(v@[i as int])
                =~= v@.subrange(a as int, i + 1));
        }
        i = i + 1;
    }
    r
}

/// Relies on `String: FromIterator<&char>` through `Iterator::collect`: the
/// collected string holds exactly the characters of the vector, in order.
#[verifier::external_body]
fn chars_to_string(v: &Vec<char>) -> (s: String)
    ensures
        s@ == v@,
{
    v.iter().collect()
}

/// The characters of `v[a..b)` as an owned string.
pub fn range_to_string(v: &Vec<char>, a: usize, b: usize) -> (s: String)
    requires
        a <= b <= v@.len(),
    ensures
        s@ == v@.subrange(a as int, b as int),
{
    let r = copy_range(v, a, b);
    chars_to_string(&r)
}

/// The characters of `s` as a vector, for index-based scanning.
pub fn str_to_chars(s: &str) -> (v: Vec<char>)
    ensures
        v@ == s@,
{
    let n = s.unicode_len();
    let mut v: Vec<char> = Vec::new();
    let mut i: usize = 0;
    while i < n
        invariant
            0 <= i <= n,
            n == s@.len(),
            v@ == s@.take(i as int),
        decreases n - i,
    {
        let c = s.get_char(i);
        v.push(c);
        proof {
            assert(s@.take(i as int).push(s@[i as int]) =~= s@.take(i + 1));
        }
        i = i + 1;
    }
    proof {
        assert(s@.take(n as int) =~= s@);
    }
    v
}

} // verus!
