//! Character classes, lexicographic order, substring search, trimming and
//! splitting over `Seq<char>`, with the executable counterparts used by the
//! catalog, the resolver and the merge engine.

use vstd::prelude::*;
use vstd::string::StrSliceExecFns;

verus! {

/// ASCII lowercase letter.
pub open spec fn is_lower(c: char) -> bool {
    'a' <= c <= 'z'
}

/// ASCII uppercase letter.
pub open spec fn is_upper(c: char) -> bool {
    'A' <= c <= 'Z'
}

/// ASCII digit.
pub open spec fn is_digit(c: char) -> bool {
    '0' <= c <= '9'
}

/// ASCII alphanumeric character.
pub open spec fn is_alnum(c: char) -> bool {
    is_lower(c) || is_upper(c) || is_digit(c)
}

/// The uppercase form of an ASCII lowercase letter; other characters are
/// left as they are.
pub open spec fn to_upper(c: char) -> char {
    if is_lower(c) {
        ((c as u32) - 32) as char
    } else {
        c
    }
}

/// Case-sensitive lexicographic order on character sequences, by code
/// point, shorter prefixes first.
pub open spec fn lex_le(a: Seq<char>, b: Seq<char>) -> bool
    decreases a.len(),
{
    if a.len() == 0 {
        true
    } else if b.len() == 0 {
        false
    } else if a[0] != b[0] {
        a[0] < b[0]
    } else {
        lex_le(a.drop_first(), b.drop_first())
    }
}

pub proof fn lemma_lex_le_total(a: Seq<char>, b: Seq<char>)
    ensures
        lex_le(a, b) || lex_le(b, a),
    decreases a.len(),
{
    if a.len() > 0 && b.len() > 0 && a[0] == b[0] {
        lemma_lex_le_total(a.drop_first(), b.drop_first());
    }
}

pub proof fn lemma_lex_le_trans(a: Seq<char>, b: Seq<char>, c: Seq<char>)
    requires
        lex_le(a, b),
        lex_le(b, c),
    ensures
        lex_le(a, c),
    decreases a.len(),
{
    if a.len() > 0 && b.len() > 0 && c.len() > 0 && a[0] == b[0] && b[0] == c[0] {
        lemma_lex_le_trans(a.drop_first(), b.drop_first(), c.drop_first());
    }
}

pub proof fn lemma_lex_le_antisym(a: Seq<char>, b: Seq<char>)
    requires
        lex_le(a, b),
        lex_le(b, a),
    ensures
        a == b,
    decreases a.len(),
{
    if a.len() > 0 && b.len() > 0 && a[0] == b[0] {
        lemma_lex_le_antisym(a.drop_first(), b.drop_first());
        assert(a.len() == b.len());
        assert forall|i: int| 0 <= i < a.len() implies a[i] == b[i] by {
            if i > 0 {
                assert(a.drop_first()[i - 1] == b.drop_first()[i - 1]);
            }
        }
        assert(a =~= b);
    }
}

/// Two sequences that agree on their first `i` characters compare the same
/// way as their tails from `i` on.
pub proof fn lemma_lex_le_skip(a: Seq<char>, b: Seq<char>, i: int)
    requires
        0 <= i <= a.len(),
        i <= b.len(),
        a.subrange(0, i) == b.subrange(0, i),
    ensures
        lex_le(a, b) == lex_le(a.skip(i), b.skip(i)),
    decreases i,
{
    if i > 0 {
        assert(a[0] == b[0]) by {
            assert(a.subrange(0, i)[0] == a[0]);
            assert(b.subrange(0, i)[0] == b[0]);
        }
        assert(a.drop_first().subrange(0, i - 1) =~= a.subrange(0, i).drop_first());
        assert(b.drop_first().subrange(0, i - 1) =~= b.subrange(0, i).drop_first());
        lemma_lex_le_skip(a.drop_first(), b.drop_first(), i - 1);
        assert(a.drop_first().skip(i - 1) =~= a.skip(i));
        assert(b.drop_first().skip(i - 1) =~= b.skip(i));
    } else {
        assert(a.skip(0) =~= a);
        assert(b.skip(0) =~= b);
    }
}

/// Lexicographic comparison of two strings: `r` holds exactly when `a` is
/// at most `b` in the order `lex_le`.
pub fn str_le(a: &str, b: &str) -> (r: bool)
    ensures
        r == lex_le(a@, b@),
{
    let la = a.unicode_len();
    let lb = b.unicode_len();
    let mut i: usize = 0;
    while i < la && i < lb
        invariant
            i <= la,
            i <= lb,
            la == a@.len(),
            lb == b@.len(),
            a@.subrange(0, i as int) == b@.subrange(0, i as int),
        decreases la - i,
    {
        let ca = a.get_char(i);
        let cb = b.get_char(i);
        if ca != cb {
            proof {
                lemma_lex_le_skip(a@, b@, i as int);
                assert(a@.skip(i as int)[0] == a@[i as int]);
                assert(b@.skip(i as int)[0] == b@[i as int]);
            }
            return ca < cb;
        }
        proof {
            assert(a@.subrange(0, i + 1 as int) =~= a@.subrange(0, i as int).push(a@[i as int]));
            assert(b@.subrange(0, i + 1 as int) =~= b@.subrange(0, i as int).push(b@[i as int]));
        }
        i = i + 1;
    }
    proof {
        lemma_lex_le_skip(a@, b@, i as int);
    }
    la <= lb
}

} // verus!

verus! {

/// `needle` occurs in `hay` starting at position `i`.
pub open spec fn match_at(hay: Seq<char>, needle: Seq<char>, i: int) -> bool {
    hay.subrange(i, i + needle.len() as int) == needle
}

/// Case-sensitive, non-anchored substring containment.
pub open spec fn contains_seq(hay: Seq<char>, needle: Seq<char>) -> bool {
    exists|i: int| 0 <= i && i + needle.len() <= hay.len() && match_at(hay, needle, i)
}

/// Substring search: `r` holds exactly when `needle` occurs in `hay`.
pub fn str_contains(hay: &str, needle: &str) -> (r: bool)
    ensures
        r == contains_seq(hay@, needle@),
{
    let hl = hay.unicode_len();
    let nl = needle.unicode_len();
    if nl > hl {
        return false;
    }
    if nl == 0 {
        proof {
            assert(hay@.subrange(0, 0) =~= needle@);
            assert(match_at(hay@, needle@, 0));
        }
        return true;
    }
    let mut i: usize = 0;
    while i <= hl - nl
        invariant
            hl == hay@.len(),
            nl == needle@.len(),
            0 < nl <= hl,
            i <= hl - nl + 1,
            forall|k: int| 0 <= k < i ==> !match_at(hay@, needle@, k),
        decreases hl - nl + 1 - i,
    {
        let mut j: usize = 0;
        let mut mismatched = false;
        while j < nl
            invariant
                hl == hay@.len(),
                nl == needle@.len(),
                i + nl <= hl,
                j <= nl,
                !mismatched ==> hay@.subrange(i as int, i + j) == needle@.subrange(0, j as int),
                mismatched ==> !match_at(hay@, needle@, i as int),
            decreases nl - j,
        {
            let hc = hay.get_char(i + j);
            let nc = needle.get_char(j);
            if hc != nc {
                proof {
                    assert(hay@.subrange(i as int, i + nl)[j as int] == hay@[i + j]);
                }
                mismatched = true;
                j = nl;
            } else {
                proof {
                    assert(hay@.subrange(i as int, i + j + 1) =~= hay@.subrange(
                        i as int,
                        i + j,
                    ).push(hay@[i + j]));
                    assert(needle@.subrange(0, j + 1 as int) =~= needle@.subrange(
                        0,
                        j as int,
                    ).push(needle@[j as int]));
                }
                j = j + 1;
            }
        }
        if !mismatched {
            proof {
                assert(needle@.subrange(0, nl as int) =~= needle@);
                assert(match_at(hay@, needle@, i as int));
            }
            return true;
        }
        i = i + 1;
    }
    false
}

/// Whitespace that is stripped from the end of a line: space, tab and
/// carriage return.
pub open spec fn is_ws(c: char) -> bool {
    c == ' ' || c == '\t' || c == '\r'
}

/// A line with its trailing whitespace removed.
pub open spec fn trim_end_spec(s: Seq<char>) -> Seq<char>
    decreases s.len(),
{
    if s.len() > 0 && is_ws(s.last()) {
        trim_end_spec(s.drop_last())
    } else {
        s
    }
}

/// Removes trailing whitespace from a line.
pub fn trim_end(s: &str) -> (r: String)
    ensures
        r@ == trim_end_spec(s@),
{
    let len = s.unicode_len();
    proof {
        assert(s@.subrange(0, len as int) =~= s@);
    }
    let mut e = len;
    loop
        invariant_except_break
            e <= len,
            len == s@.len(),
            trim_end_spec(s@) == trim_end_spec(s@.subrange(0, e as int)),
        ensures
            e <= len,
            len == s@.len(),
            trim_end_spec(s@) == s@.subrange(0, e as int),
        decreases e,
    {
        if e == 0 {
            proof {
                assert(s@.subrange(0, 0).len() == 0);
            }
            break;
        }
        let c = s.get_char(e - 1);
        if !(c == ' ' || c == '\t' || c == '\r') {
            proof {
                assert(s@.subrange(0, e as int).last() == s@[e - 1]);
            }
            break;
        }
        proof {
            assert(s@.subrange(0, e as int).last() == s@[e - 1]);
            assert(s@.subrange(0, e - 1) =~= s@.subrange(0, e as int).drop_last());
        }
        e = e - 1;
    }
    let sub = s.substring_char(0, e);
    sub.to_owned()
}

/// Index of the first occurrence of `sep` in `s`, or `s.len()` when there
/// is none.
pub open spec fn first_at(s: Seq<char>, sep: char) -> int
    decreases s.len(),
{
    if s.len() == 0 {
        0
    } else if s[0] == sep {
        0
    } else {
        1 + first_at(s.drop_first(), sep)
    }
}

pub proof fn lemma_first_at(s: Seq<char>, sep: char)
    ensures
        0 <= first_at(s, sep) <= s.len(),
        first_at(s, sep) < s.len() ==> s[first_at(s, sep)] == sep,
        forall|j: int| 0 <= j < first_at(s, sep) ==> s[j] != sep,
    decreases s.len(),
{
    if s.len() > 0 && s[0] != sep {
        lemma_first_at(s.drop_first(), sep);
        assert forall|j: int| 0 <= j < first_at(s, sep) implies s[j] != sep by {
            if j > 0 {
                assert(s.drop_first()[j - 1] != sep);
            }
        }
    }
}

/// The first occurrence is whatever position carries `sep` with none
/// before it; without any occurrence it is the length.
pub proof fn lemma_first_at_is(s: Seq<char>, sep: char, i: int)
    requires
        0 <= i <= s.len(),
        i < s.len() ==> s[i] == sep,
        forall|j: int| 0 <= j < i ==> s[j] != sep,
        i == s.len() ==> forall|j: int| 0 <= j < s.len() ==> s[j] != sep,
    ensures
        first_at(s, sep) == i,
    decreases s.len(),
{
    if s.len() > 0 && s[0] != sep {
        lemma_first_at_is(s.drop_first(), sep, i - 1);
    }
}

/// Splitting on a separator character: a sequence with `n` separators
/// yields `n + 1` parts, empty parts included.
pub open spec fn split_on(s: Seq<char>, sep: char) -> Seq<Seq<char>>
    decreases s.len(),
{
    let f = first_at(s, sep);
    if 0 <= f < s.len() {
        seq![s.subrange(0, f)] + split_on(s.subrange(f + 1, s.len() as int), sep)
    } else {
        seq![s]
    }
}

/// Splitting into lines: parts between `'\n'` characters, except that a
/// final empty part (text ending in a newline, or empty text) is dropped.
pub open spec fn split_lines(s: Seq<char>) -> Seq<Seq<char>> {
    let p = split_on(s, '\n');
    if p.len() > 0 && p.last().len() == 0 {
        p.drop_last()
    } else {
        p
    }
}

} // verus!

verus! {

/// Splits a string on a separator character; a string with `n` separators
/// yields `n + 1` parts.
pub fn split_on_char(s: &str, sep: char) -> (v: Vec<String>)
    ensures
        v.deep_view() == split_on(s@, sep),
{
    let len = s.unicode_len();
    let mut v: Vec<String> = Vec::new();
    proof {
        assert(s@.subrange(0, len as int) =~= s@);
        assert(v.deep_view() + split_on(s@, sep) =~= split_on(s@, sep));
    }
    let mut start: usize = 0;
    let mut i: usize = 0;
    while i < len
        invariant
            start <= i <= len,
            len == s@.len(),
            forall|j: int| start <= j < i ==> s@[j] != sep,
            split_on(s@, sep) == v.deep_view() + split_on(s@.subrange(start as int, len as int), sep),
        decreases len - i,
    {
        let c = s.get_char(i);
        if c == sep {
            let part = s.substring_char(start, i).to_owned();
            proof {
                let tail = s@.subrange(start as int, len as int);
                assert forall|j: int| 0 <= j < i - start implies tail[j] != sep by {
                    assert(tail[j] == s@[start + j]);
                }
                assert(tail[i - start] == s@[i as int]);
                lemma_first_at_is(tail, sep, i - start);
                assert(tail.subrange(0, i - start) =~= s@.subrange(start as int, i as int));
                assert(tail.subrange(i - start + 1, tail.len() as int) =~= s@.subrange(
                    i + 1,
                    len as int,
                ));
                let old_dv = v.deep_view();
                assert(old_dv.push(part@) + split_on(s@.subrange(i + 1, len as int), sep) =~= old_dv
                    + (seq![part@] + split_on(s@.subrange(i + 1, len as int), sep)));
            }
            let ghost old_dv = v.deep_view();
            v.push(part);
            proof {
                assert(v.deep_view() =~= old_dv.push(s@.subrange(start as int, i as int)));
            }
            start = i + 1;
        }
        i = i + 1;
    }
    let last = s.substring_char(start, len).to_owned();
    proof {
        let tail = s@.subrange(start as int, len as int);
        assert forall|j: int| 0 <= j < tail.len() implies tail[j] != sep by {
            assert(tail[j] == s@[start + j]);
        }
        lemma_first_at(tail, sep);
        lemma_first_at_is(tail, sep, tail.len() as int);
        assert(split_on(tail, sep) =~= seq![tail]);
        let old_dv = v.deep_view();
        assert(old_dv + seq![tail] =~= old_dv.push(tail));
    }
    let ghost old_dv = v.deep_view();
    v.push(last);
    proof {
        assert(v.deep_view() =~= old_dv.push(s@.subrange(start as int, len as int)));
    }
    v
}

/// Splits text into lines, dropping the empty part after a final newline.
pub fn split_lines_exec(s: &str) -> (v: Vec<String>)
    ensures
        v.deep_view() == split_lines(s@),
{
    let mut v = split_on_char(s, '\n');
    proof {
        lemma_first_at(s@, '\n');
    }
    if v.len() > 0 {
        let last_len = v[v.len() - 1].as_str().unicode_len();
        if last_len == 0 {
            let ghost old_dv = v.deep_view();
            v.pop();
            proof {
                assert(v.deep_view() =~= old_dv.drop_last());
            }
        }
    }
    v
}

/// Relies on `String::from_iter` (through `Iterator::collect`): collecting
/// characters yields the string of exactly those characters, in order.
#[verifier::external_body]
pub fn chars_to_string(v: &Vec<char>) -> (s: String)
    ensures
        s@ == v@,
{
    v.iter().collect()
}

/// Concatenation of parts with a separator in between.
pub open spec fn join_with(parts: Seq<Seq<char>>, sep: Seq<char>) -> Seq<char>
    decreases parts.len(),
{
    if parts.len() == 0 {
        Seq::empty()
    } else if parts.len() == 1 {
        parts[0]
    } else {
        join_with(parts.drop_last(), sep) + sep + parts.last()
    }
}

/// Membership of a string among the elements of a vector.
pub fn vec_contains_string(v: &Vec<String>, s: &String) -> (r: bool)
    ensures
        r == v.deep_view().contains(s@),
{
    let mut i: usize = 0;
    while i < v.len()
        invariant
            i <= v@.len(),
            forall|k: int| 0 <= k < i ==> v.deep_view()[k] != s@,
        decreases v@.len() - i,
    {
        if v[i].eq(s) {
            proof {
                assert(v.deep_view()[i as int] == s@);
            }
            return true;
        }
        i = i + 1;
    }
    proof {
        assert forall|k: int| 0 <= k < v.deep_view().len() implies v.deep_view()[k] != s@ by {}
    }
    false
}

} // verus!

verus! {

/// String equality at the character level.
pub fn str_eq(a: &str, b: &str) -> (r: bool)
    ensures
        r == (a@ == b@),
{
    let la = a.unicode_len();
    let lb = b.unicode_len();
    if la != lb {
        return false;
    }
    let mut i: usize = 0;
    while i < la
        invariant
            i <= la,
            la == a@.len(),
            la == b@.len(),
            forall|k: int| 0 <= k < i ==> a@[k] == b@[k],
        decreases la - i,
    {
        let ca = a.get_char(i);
        let cb = b.get_char(i);
        if ca != cb {
            return false;
        }
        i = i + 1;
    }
    proof {
        assert(a@ =~= b@);
    }
    true
}

} // verus!

verus! {

/// No occurrence of `c` anywhere in `l`.
pub open spec fn free_of(l: Seq<char>, c: char) -> bool {
    forall|i: int| 0 <= i < l.len() ==> l[i] != c
}

/// Splitting yields at least one part.
pub proof fn lemma_split_on_len(s: Seq<char>, sep: char)
    ensures
        split_on(s, sep).len() >= 1,
    decreases s.len(),
{
    lemma_first_at(s, sep);
}

/// No part of a split contains the separator.
pub proof fn lemma_split_on_free(s: Seq<char>, sep: char)
    ensures
        forall|k: int|
            0 <= k < split_on(s, sep).len() ==> free_of(#[trigger] split_on(s, sep)[k], sep),
    decreases s.len(),
{
    lemma_first_at(s, sep);
    let f = first_at(s, sep);
    if 0 <= f < s.len() {
        lemma_split_on_free(s.subrange(f + 1, s.len() as int), sep);
        assert forall|k: int| 0 <= k < split_on(s, sep).len() implies free_of(
            #[trigger] split_on(s, sep)[k],
            sep,
        ) by {
            if k == 0 {
                assert forall|i: int| 0 <= i < s.subrange(0, f).len() implies s.subrange(0, f)[i]
                    != sep by {
                    assert(s.subrange(0, f)[i] == s[i]);
                }
            } else {
                assert(split_on(s, sep)[k] == split_on(s.subrange(f + 1, s.len() as int), sep)[k
                    - 1]);
            }
        }
    }
}

/// The last part of a split is empty exactly when the text is empty or
/// ends with the separator.
pub proof fn lemma_split_on_last(s: Seq<char>, sep: char)
    ensures
        s.len() == 0 ==> split_on(s, sep) == seq![s],
        s.len() > 0 && s.last() == sep ==> split_on(s, sep).last().len() == 0,
        s.len() > 0 && s.last() != sep ==> split_on(s, sep).last().len() > 0,
    decreases s.len(),
{
    lemma_first_at(s, sep);
    let f = first_at(s, sep);
    if 0 <= f < s.len() {
        let tail = s.subrange(f + 1, s.len() as int);
        lemma_split_on_last(tail, sep);
        lemma_split_on_len(tail, sep);
        assert(split_on(s, sep).last() == split_on(tail, sep).last());
        if tail.len() > 0 {
            assert(tail.last() == s.last());
        } else {
            assert(s[f] == sep && f == s.len() - 1);
        }
    }
}

/// Appending the separator appends one empty part.
pub proof fn lemma_split_on_push_sep(s: Seq<char>, sep: char)
    ensures
        split_on(s.push(sep), sep) == split_on(s, sep) + seq![Seq::<char>::empty()],
    decreases s.len(),
{
    lemma_first_at(s, sep);
    let f = first_at(s, sep);
    let p = s.push(sep);
    assert forall|j: int| 0 <= j < f implies p[j] != sep by {}
    if 0 <= f < s.len() {
        lemma_first_at_is(p, sep, f);
        assert(p.subrange(0, f) =~= s.subrange(0, f));
        assert(p.subrange(f + 1, p.len() as int) =~= s.subrange(f + 1, s.len() as int).push(sep));
        lemma_split_on_push_sep(s.subrange(f + 1, s.len() as int), sep);
        assert(split_on(p, sep) =~= split_on(s, sep) + seq![Seq::<char>::empty()]);
    } else {
        assert(p[f] == sep);
        lemma_first_at_is(p, sep, f);
        assert(p.subrange(0, f) =~= s);
        assert(p.subrange(f + 1, p.len() as int) =~= Seq::<char>::empty());
        assert(split_on(Seq::<char>::empty(), sep) == seq![Seq::<char>::empty()]);
        assert(split_on(p, sep) =~= split_on(s, sep) + seq![Seq::<char>::empty()]);
    }
}

/// Appending one separator-free line and a separator to text that is
/// empty or ends with the separator appends exactly that line and a
/// final empty part.
pub proof fn lemma_split_on_snoc_line(q: Seq<char>, l: Seq<char>, sep: char)
    requires
        q.len() == 0 || q.last() == sep,
        free_of(l, sep),
    ensures
        split_on(q + l.push(sep), sep) == split_on(q, sep).drop_last() + seq![l] + seq![
            Seq::<char>::empty()
        ],
    decreases q.len(),
{
    let w = q + l.push(sep);
    if q.len() == 0 {
        assert(w =~= l.push(sep));
        assert forall|j: int| 0 <= j < l.len() implies w[j] != sep by {
            assert(w[j] == l[j]);
        }
        assert(w[l.len() as int] == sep);
        lemma_first_at_is(w, sep, l.len() as int);
        assert(w.subrange(0, l.len() as int) =~= l);
        assert(w.subrange(l.len() as int + 1, w.len() as int) =~= Seq::<char>::empty());
        assert(split_on(Seq::<char>::empty(), sep) == seq![Seq::<char>::empty()]);
        assert(split_on(q, sep) == seq![q]);
        assert(split_on(w, sep) =~= split_on(q, sep).drop_last() + seq![l] + seq![
            Seq::<char>::empty()
        ]);
    } else {
        lemma_first_at(q, sep);
        let f = first_at(q, sep);
        assert(q.contains(sep)) by {
            assert(q[q.len() - 1] == sep);
        }
        assert(f < q.len()) by {
            if f == q.len() {
                assert(q[q.len() - 1] != sep);
            }
        }
        assert forall|j: int| 0 <= j < f implies w[j] != sep by {
            assert(w[j] == q[j]);
        }
        assert(w[f] == q[f]);
        lemma_first_at_is(w, sep, f);
        let qt = q.subrange(f + 1, q.len() as int);
        assert(w.subrange(0, f) =~= q.subrange(0, f));
        assert(w.subrange(f + 1, w.len() as int) =~= qt + l.push(sep));
        if qt.len() > 0 {
            assert(qt.last() == q.last());
        }
        lemma_split_on_snoc_line(qt, l, sep);
        lemma_split_on_len(qt, sep);
        assert(split_on(w, sep) =~= split_on(q, sep).drop_last() + seq![l] + seq![
            Seq::<char>::empty()
        ]);
    }
}

/// The lines of text extended by one newline-free line and its newline
/// are the lines of the text followed by that line.
pub proof fn lemma_split_lines_snoc(q: Seq<char>, l: Seq<char>)
    requires
        q.len() == 0 || q.last() == '\n',
        free_of(l, '\n'),
    ensures
        split_lines(q + l.push('\n')) == split_lines(q) + seq![l],
{
    lemma_split_on_snoc_line(q, l, '\n');
    lemma_split_on_last(q, '\n');
    lemma_split_on_len(q, '\n');
    let w = q + l.push('\n');
    let pw = split_on(w, '\n');
    assert(pw.last().len() == 0);
    assert(split_lines(w) =~= split_on(q, '\n').drop_last() + seq![l]);
    if q.len() == 0 {
        assert(split_lines(q) =~= Seq::<Seq<char>>::empty());
        assert(split_on(q, '\n').drop_last() =~= Seq::<Seq<char>>::empty());
    } else {
        assert(split_lines(q) =~= split_on(q, '\n').drop_last());
    }
    assert(split_lines(w) =~= split_lines(q) + seq![l]);
}

/// Completing a missing final newline changes no line.
pub proof fn lemma_split_lines_final_nl(s: Seq<char>)
    requires
        s.len() > 0,
        s.last() != '\n',
    ensures
        split_lines(s.push('\n')) == split_lines(s),
{
    lemma_split_on_push_sep(s, '\n');
    lemma_split_on_len(s, '\n');
    lemma_split_on_last(s, '\n');
    let p = split_on(s, '\n');
    assert(split_on(s.push('\n'), '\n').last().len() == 0);
    assert(split_on(s.push('\n'), '\n').drop_last() =~= p);
    assert(p.last().len() > 0);
    assert(split_lines(s) =~= p);
    assert(split_lines(s.push('\n')) =~= p);
}

} // verus!
