//! The direct-fetch merge engine: capitalization of requested names, and
//! the deduplicated line batch collected from fetched template bodies.

use vstd::prelude::*;
use vstd::string::StrSliceExecFns;
use vstd::string::StringExecFns;

use crate::text::{
    is_lower, is_upper, is_alnum, to_upper, split_on, split_lines, join_with, trim_end_spec,
    split_on_char, split_lines_exec, chars_to_string, trim_end, vec_contains_string,
};

verus! {

/// A segment already carrying an ASCII uppercase letter is left alone.
pub open spec fn seg_has_upper(s: Seq<char>) -> bool {
    exists|i: int| 0 <= i < s.len() && is_upper(s[i])
}

/// The capitalized form of the character at `i`: uppercased when it is a
/// lowercase letter standing at the start or right after a
/// non-alphanumeric character.
pub open spec fn cap_char(s: Seq<char>, i: int) -> char {
    if is_lower(s[i]) && (i == 0 || !is_alnum(s[i - 1])) {
        to_upper(s[i])
    } else {
        s[i]
    }
}

/// One segment of a name after capitalization.
pub open spec fn cap_segment(s: Seq<char>) -> Seq<char> {
    if seg_has_upper(s) {
        s
    } else {
        Seq::new(s.len(), |i: int| cap_char(s, i))
    }
}

/// A whole name after capitalization: each `/`-separated segment
/// capitalized independently.
pub open spec fn cap_name(s: Seq<char>) -> Seq<char> {
    join_with(split_on(s, '/').map_values(|p: Seq<char>| cap_segment(p)), "/"@)
}

/// Uppercases an ASCII lowercase letter; other characters are unchanged.
fn to_upper_exec(c: char) -> (r: char)
    ensures
        r == to_upper(c),
{
    match c {
        'a' => 'A',
        'b' => 'B',
        'c' => 'C',
        'd' => 'D',
        'e' => 'E',
        'f' => 'F',
        'g' => 'G',
        'h' => 'H',
        'i' => 'I',
        'j' => 'J',
        'k' => 'K',
        'l' => 'L',
        'm' => 'M',
        'n' => 'N',
        'o' => 'O',
        'p' => 'P',
        'q' => 'Q',
        'r' => 'R',
        's' => 'S',
        't' => 'T',
        'u' => 'U',
        'v' => 'V',
        'w' => 'W',
        'x' => 'X',
        'y' => 'Y',
        'z' => 'Z',
        _ => c,
    }
}

/// Whether `c` is an ASCII alphanumeric character.
fn is_alnum_exec(c: char) -> (r: bool)
    ensures
        r == is_alnum(c),
{
    ('a' <= c && c <= 'z') || ('A' <= c && c <= 'Z') || ('0' <= c && c <= '9')
}

/// Capitalizes one segment, unless it already has an uppercase letter.
fn cap_segment_exec(s: &str) -> (r: String)
    ensures
        r@ == cap_segment(s@),
{
    let len = s.unicode_len();
    let mut i: usize = 0;
    while i < len
        invariant
            i <= len,
            len == s@.len(),
            forall|k: int| 0 <= k < i ==> !is_upper(s@[k]),
        decreases len - i,
    {
        let c = s.get_char(i);
        if 'A' <= c && c <= 'Z' {
            proof {
                assert(seg_has_upper(s@));
            }
            return s.to_owned();
        }
        i = i + 1;
    }
    proof {
        assert(!seg_has_upper(s@));
    }
    let mut v: Vec<char> = Vec::new();
    let mut j: usize = 0;
    while j < len
        invariant
            j <= len,
            len == s@.len(),
            v@.len() == j,
            forall|k: int| 0 <= k < j ==> v@[k] == cap_char(s@, k),
        decreases len - j,
    {
        let c = s.get_char(j);
        let boundary = if j == 0 {
            true
        } else {
            !is_alnum_exec(s.get_char(j - 1))
        };
        let oc = if boundary && 'a' <= c && c <= 'z' {
            to_upper_exec(c)
        } else {
            c
        };
        v.push(oc);
        j = j + 1;
    }
    proof {
        assert(v@ =~= Seq::new(s@.len(), |i: int| cap_char(s@, i)));
    }
    chars_to_string(&v)
}

/// Capitalizes a requested name segment by segment, as the remote store
/// names its template files: `visual-studio-code` becomes
/// `Visual-Studio-Code`, while a name already carrying an uppercase
/// letter is left alone.
pub fn capitalize_name(name: &str) -> (r: String)
    ensures
        r@ == cap_name(name@),
{
    let parts = split_on_char(name, '/');
    let ghost mapped = split_on(name@, '/').map_values(|p: Seq<char>| cap_segment(p));
    let mut out = String::new();
    let mut k: usize = 0;
    proof {
        assert(parts.deep_view().len() > 0);
        assert(out@ =~= join_with(mapped.take(0), "/"@));
    }
    while k < parts.len()
        invariant
            k <= parts@.len(),
            parts.deep_view() == split_on(name@, '/'),
            mapped == split_on(name@, '/').map_values(|p: Seq<char>| cap_segment(p)),
            out@ == join_with(mapped.take(k as int), "/"@),
        decreases parts@.len() - k,
    {
        if k > 0 {
            out.append("/");
        }
        let seg = cap_segment_exec(parts[k].as_str());
        out.append(seg.as_str());
        proof {
            assert(mapped.take(k + 1).drop_last() =~= mapped.take(k as int));
            assert(mapped.take(k + 1).last() == cap_segment(parts.deep_view()[k as int]));
            if k == 0 {
                assert(join_with(mapped.take(1), "/"@) == mapped[0]);
            }
        }
        k = k + 1;
    }
    proof {
        assert(mapped.take(parts@.len() as int) =~= mapped);
    }
    out
}

} // verus!

verus! {

/// Merge state: the batch of new lines collected so far, and every line
/// seen so far (target file lines plus collected lines).
pub struct MergeSt {
    pub batch: Seq<Seq<char>>,
    pub seen: Seq<Seq<char>>,
}

/// One raw line is absorbed: trimmed of trailing whitespace, then dropped
/// when empty or already seen, else appended to batch and seen.
pub open spec fn absorb_line(st: MergeSt, raw: Seq<char>) -> MergeSt {
    let t = trim_end_spec(raw);
    if t.len() == 0 {
        st
    } else if st.seen.contains(t) {
        st
    } else {
        MergeSt { batch: st.batch.push(t), seen: st.seen.push(t) }
    }
}

/// A sequence of raw lines absorbed in order.
pub open spec fn absorb_lines(st: MergeSt, lines: Seq<Seq<char>>) -> MergeSt
    decreases lines.len(),
{
    if lines.len() == 0 {
        st
    } else {
        absorb_line(absorb_lines(st, lines.drop_last()), lines.last())
    }
}

/// All fetch results absorbed in order: a fetched body contributes its
/// lines, a failed fetch contributes nothing.
pub open spec fn absorb_results(st: MergeSt, rs: Seq<(Seq<char>, Option<Seq<char>>)>) -> MergeSt
    decreases rs.len(),
{
    if rs.len() == 0 {
        st
    } else {
        let prev = absorb_results(st, rs.drop_last());
        match rs.last().1 {
            Option::Some(body) => absorb_lines(prev, split_lines(body)),
            Option::None => prev,
        }
    }
}

/// The lines of the pre-existing target, trimmed, as the initial seen
/// set; the batch starts empty.
pub open spec fn initial_merge_st(target: Seq<char>) -> MergeSt {
    MergeSt {
        batch: Seq::empty(),
        seen: split_lines(target).map_values(|l: Seq<char>| trim_end_spec(l)),
    }
}

/// The names of the fetch results that succeeded, in order.
pub open spec fn succeeded_of(rs: Seq<(Seq<char>, Option<Seq<char>>)>) -> Seq<Seq<char>>
    decreases rs.len(),
{
    if rs.len() == 0 {
        Seq::empty()
    } else {
        succeeded_of(rs.drop_last()) + (if rs.last().1 is Some {
            seq![rs.last().0]
        } else {
            Seq::empty()
        })
    }
}

/// The names of the fetch results that failed, in order.
pub open spec fn failed_of(rs: Seq<(Seq<char>, Option<Seq<char>>)>) -> Seq<Seq<char>>
    decreases rs.len(),
{
    if rs.len() == 0 {
        Seq::empty()
    } else {
        failed_of(rs.drop_last()) + (if rs.last().1 is None {
            seq![rs.last().0]
        } else {
            Seq::empty()
        })
    }
}

} // verus!

verus! {

/// Trimming is idempotent because a trimmed line does not end in
/// whitespace.
pub proof fn lemma_trim_fixed(s: Seq<char>)
    ensures
        trim_end_spec(trim_end_spec(s)) == trim_end_spec(s),
    decreases s.len(),
{
    if s.len() > 0 && crate::text::is_ws(s.last()) {
        lemma_trim_fixed(s.drop_last());
    }
}

/// The running merge state: the seen lines are exactly the initial ones
/// followed by the batch, and the batch holds pairwise distinct,
/// non-empty, trimmed lines, none of them present initially.
pub open spec fn merge_inv(init: Seq<Seq<char>>, st: MergeSt) -> bool {
    &&& st.seen == init + st.batch
    &&& forall|i: int|
        0 <= i < st.batch.len() ==> (#[trigger] st.batch[i]).len() > 0 && st.batch[i]
            == trim_end_spec(st.batch[i]) && !init.contains(st.batch[i])
    &&& forall|i: int, j: int| 0 <= i < j < st.batch.len() ==> st.batch[i] != st.batch[j]
}

pub proof fn lemma_absorb_line_inv(init: Seq<Seq<char>>, st: MergeSt, raw: Seq<char>)
    requires
        merge_inv(init, st),
    ensures
        merge_inv(init, absorb_line(st, raw)),
{
    let t = trim_end_spec(raw);
    lemma_trim_fixed(raw);
    if t.len() > 0 && !st.seen.contains(t) {
        let r = absorb_line(st, raw);
        assert(r.seen =~= init + r.batch);
        assert forall|i: int| 0 <= i < r.batch.len() implies (#[trigger] r.batch[i]).len() > 0
            && r.batch[i] == trim_end_spec(r.batch[i]) && !init.contains(r.batch[i]) by {
            if i == st.batch.len() {
                if init.contains(t) {
                    let w = choose|w: int| 0 <= w < init.len() && init[w] == t;
                    assert(st.seen[w] == t);
                }
            }
        }
        assert forall|i: int, j: int| 0 <= i < j < r.batch.len() implies r.batch[i]
            != r.batch[j] by {
            if j == st.batch.len() {
                assert(st.seen[init.len() + i] == st.batch[i]);
            }
        }
    }
}

pub proof fn lemma_absorb_lines_inv(init: Seq<Seq<char>>, st: MergeSt, lines: Seq<Seq<char>>)
    requires
        merge_inv(init, st),
    ensures
        merge_inv(init, absorb_lines(st, lines)),
    decreases lines.len(),
{
    if lines.len() > 0 {
        lemma_absorb_lines_inv(init, st, lines.drop_last());
        lemma_absorb_line_inv(init, absorb_lines(st, lines.drop_last()), lines.last());
    }
}

pub proof fn lemma_absorb_results_inv(
    init: Seq<Seq<char>>,
    st: MergeSt,
    rs: Seq<(Seq<char>, Option<Seq<char>>)>,
)
    requires
        merge_inv(init, st),
    ensures
        merge_inv(init, absorb_results(st, rs)),
    decreases rs.len(),
{
    if rs.len() > 0 {
        lemma_absorb_results_inv(init, st, rs.drop_last());
        match rs.last().1 {
            Option::Some(body) => {
                lemma_absorb_lines_inv(init, absorb_results(st, rs.drop_last()), split_lines(body));
            },
            Option::None => {},
        }
    }
}

} // verus!

verus! {

/// The body a fetch result carries, or nothing for a failed fetch.
pub open spec fn fetched_body(p: (Seq<char>, Option<Seq<char>>)) -> Seq<char> {
    match p.1 {
        Option::Some(b) => b,
        Option::None => Seq::empty(),
    }
}

/// Every non-empty trimmed line of `lines` is among `seen`.
pub open spec fn lines_all_seen(seen: Seq<Seq<char>>, lines: Seq<Seq<char>>) -> bool {
    forall|k: int|
        0 <= k < lines.len() && trim_end_spec(#[trigger] lines[k]).len() > 0 ==> seen.contains(
            trim_end_spec(lines[k]),
        )
}

/// Every non-empty trimmed line of every successfully fetched body is
/// among `seen`.
pub open spec fn results_all_seen(
    seen: Seq<Seq<char>>,
    rs: Seq<(Seq<char>, Option<Seq<char>>)>,
) -> bool {
    forall|n: int|
        0 <= n < rs.len() && (#[trigger] rs[n]).1 is Some ==> lines_all_seen(
            seen,
            split_lines(fetched_body(rs[n])),
        )
}

/// Absorbing lines only grows the seen set, and afterwards every
/// candidate line of the absorbed text is seen.
pub proof fn lemma_absorb_lines_seen(st: MergeSt, lines: Seq<Seq<char>>)
    ensures
        forall|x: Seq<char>|
            st.seen.contains(x) ==> #[trigger] absorb_lines(st, lines).seen.contains(x),
        lines_all_seen(absorb_lines(st, lines).seen, lines),
    decreases lines.len(),
{
    if lines.len() > 0 {
        let prev = absorb_lines(st, lines.drop_last());
        let r = absorb_lines(st, lines);
        lemma_absorb_lines_seen(st, lines.drop_last());
        assert forall|x: Seq<char>| prev.seen.contains(x) implies r.seen.contains(x) by {
            let w = choose|w: int| 0 <= w < prev.seen.len() && prev.seen[w] == x;
            assert(r.seen[w] == x);
        }
        let t = trim_end_spec(lines.last());
        if t.len() > 0 {
            if prev.seen.contains(t) {
                assert(r.seen.contains(t));
            } else {
                assert(r.seen[prev.seen.len() as int] == t);
            }
        }
        assert forall|k: int|
            0 <= k < lines.len() && trim_end_spec(#[trigger] lines[k]).len() > 0
            implies r.seen.contains(trim_end_spec(lines[k])) by {
            if k < lines.len() - 1 {
                assert(lines.drop_last()[k] == lines[k]);
                assert(prev.seen.contains(trim_end_spec(lines[k])));
            }
        }
    }
}

/// Absorbing lines whose candidates are all seen already changes
/// nothing.
pub proof fn lemma_absorb_lines_noop(st: MergeSt, lines: Seq<Seq<char>>)
    requires
        lines_all_seen(st.seen, lines),
    ensures
        absorb_lines(st, lines) == st,
    decreases lines.len(),
{
    if lines.len() > 0 {
        assert forall|k: int|
            0 <= k < lines.drop_last().len() && trim_end_spec(
                #[trigger] lines.drop_last()[k],
            ).len() > 0 implies st.seen.contains(trim_end_spec(lines.drop_last()[k])) by {
            assert(lines.drop_last()[k] == lines[k]);
        }
        lemma_absorb_lines_noop(st, lines.drop_last());
        assert(trim_end_spec(lines.last()).len() > 0 ==> st.seen.contains(
            trim_end_spec(lines.last()),
        ));
    }
}

/// Absorbing fetch results only grows the seen set, and afterwards every
/// candidate line of every successful body is seen.
pub proof fn lemma_absorb_results_seen(st: MergeSt, rs: Seq<(Seq<char>, Option<Seq<char>>)>)
    ensures
        forall|x: Seq<char>|
            st.seen.contains(x) ==> #[trigger] absorb_results(st, rs).seen.contains(x),
        results_all_seen(absorb_results(st, rs).seen, rs),
    decreases rs.len(),
{
    if rs.len() > 0 {
        let prev = absorb_results(st, rs.drop_last());
        let r = absorb_results(st, rs);
        lemma_absorb_results_seen(st, rs.drop_last());
        match rs.last().1 {
            Option::Some(body) => {
                lemma_absorb_lines_seen(prev, split_lines(body));
            },
            Option::None => {},
        }
        assert forall|n: int| 0 <= n < rs.len() && (#[trigger] rs[n]).1 is Some
            implies lines_all_seen(r.seen, split_lines(fetched_body(rs[n]))) by {
            if n < rs.len() - 1 {
                assert(rs.drop_last()[n] == rs[n]);
                assert(lines_all_seen(prev.seen, split_lines(fetched_body(rs[n]))));
                assert forall|k: int|
                    0 <= k < split_lines(fetched_body(rs[n])).len() && trim_end_spec(
                        #[trigger] split_lines(fetched_body(rs[n]))[k],
                    ).len() > 0 implies r.seen.contains(
                    trim_end_spec(split_lines(fetched_body(rs[n]))[k]),
                ) by {}
            } else {
                assert(rs[n] == rs.last());
            }
        }
    }
}

/// Absorbing fetch results whose candidate lines are all seen already
/// changes nothing.
pub proof fn lemma_absorb_results_noop(st: MergeSt, rs: Seq<(Seq<char>, Option<Seq<char>>)>)
    requires
        results_all_seen(st.seen, rs),
    ensures
        absorb_results(st, rs) == st,
    decreases rs.len(),
{
    if rs.len() > 0 {
        assert forall|n: int|
            0 <= n < rs.drop_last().len() && (#[trigger] rs.drop_last()[n]).1 is Some
            implies lines_all_seen(st.seen, split_lines(fetched_body(rs.drop_last()[n]))) by {
            assert(rs.drop_last()[n] == rs[n]);
        }
        lemma_absorb_results_noop(st, rs.drop_last());
        match rs.last().1 {
            Option::Some(body) => {
                assert(rs[rs.len() - 1].1 is Some);
                lemma_absorb_lines_noop(st, split_lines(body));
            },
            Option::None => {},
        }
    }
}

/// Merging is idempotent: running the very same fetch results once more,
/// against the seen set the first run left behind, collects no line at
/// all — appending the batch once and appending it twice give the same
/// target content.
pub proof fn lemma_merge_idempotent(target: Seq<char>, rs: Seq<(Seq<char>, Option<Seq<char>>)>)
    ensures
        ({
            let once = absorb_results(initial_merge_st(target), rs);
            absorb_results(MergeSt { batch: Seq::empty(), seen: once.seen }, rs).batch
                == Seq::<Seq<char>>::empty()
        }),
{
    let once = absorb_results(initial_merge_st(target), rs);
    lemma_absorb_results_seen(initial_merge_st(target), rs);
    lemma_absorb_results_noop(MergeSt { batch: Seq::empty(), seen: once.seen }, rs);
}

} // verus!

verus! {

/// What one direct-fetch invocation computed: the deduplicated batch of
/// new lines, and which names succeeded or failed.
pub struct MergeOutcome {
    /// New lines to append or print, in order, each exactly once.
    pub lines: Vec<String>,
    /// Names whose fetch succeeded, in order.
    pub succeeded: Vec<String>,
    /// Names whose fetch failed, in order.
    pub failed: Vec<String>,
}

/// Collects the deduplicated batch of lines from the fetched bodies, in
/// order: each body's lines are trimmed of trailing whitespace; blank
/// lines, lines already in the target text and lines already collected
/// are dropped. A failed fetch (no body) contributes nothing and is
/// reported; names are reported as succeeded or failed in the order
/// given. The batch lines are pairwise distinct, non-empty, and absent
/// from the target text's trimmed lines.
pub fn merge_fetched(results: &Vec<(String, Option<String>)>, target: &str) -> (r: MergeOutcome)
    ensures
        r.lines.deep_view() == absorb_results(initial_merge_st(target@), results.deep_view()).batch,
        r.succeeded.deep_view() == succeeded_of(results.deep_view()),
        r.failed.deep_view() == failed_of(results.deep_view()),
        forall|i: int, j: int|
            0 <= i < j < r.lines.deep_view().len() ==> r.lines.deep_view()[i]
                != r.lines.deep_view()[j],
        forall|i: int|
            0 <= i < r.lines.deep_view().len() ==> (#[trigger] r.lines.deep_view()[i]).len() > 0
                && !initial_merge_st(target@).seen.contains(r.lines.deep_view()[i]),
{
    let ghost init = initial_merge_st(target@);
    let ghost rsv = results.deep_view();
    let raw = split_lines_exec(target);
    let mut seen: Vec<String> = Vec::new();
    let mut i: usize = 0;
    proof {
        assert(seen.deep_view() =~= raw.deep_view().take(0).map_values(
            |l: Seq<char>| trim_end_spec(l),
        ));
    }
    while i < raw.len()
        invariant
            i <= raw@.len(),
            raw.deep_view() == split_lines(target@),
            seen.deep_view() == raw.deep_view().take(i as int).map_values(
                |l: Seq<char>| trim_end_spec(l),
            ),
        decreases raw@.len() - i,
    {
        let ghost s0 = seen.deep_view();
        let t = trim_end(raw[i].as_str());
        proof {
            assert(t@ == trim_end_spec(raw.deep_view()[i as int]));
        }
        seen.push(t);
        proof {
            assert(seen.deep_view() =~= s0.push(trim_end_spec(raw.deep_view()[i as int])));
            assert(seen.deep_view() =~= raw.deep_view().take(i + 1).map_values(
                |l: Seq<char>| trim_end_spec(l),
            ));
        }
        i = i + 1;
    }
    proof {
        assert(raw.deep_view().take(raw@.len() as int) =~= raw.deep_view());
        assert(seen.deep_view() == init.seen);
    }

    let mut lines: Vec<String> = Vec::new();
    let mut succeeded: Vec<String> = Vec::new();
    let mut failed: Vec<String> = Vec::new();
    let mut n: usize = 0;
    proof {
        assert(rsv.take(0) =~= Seq::<(Seq<char>, Option<Seq<char>>)>::empty());
    }
    while n < results.len()
        invariant
            n <= results@.len(),
            rsv == results.deep_view(),
            raw.deep_view() == split_lines(target@),
            lines.deep_view() == absorb_results(init, rsv.take(n as int)).batch,
            seen.deep_view() == absorb_results(init, rsv.take(n as int)).seen,
            succeeded.deep_view() == succeeded_of(rsv.take(n as int)),
            failed.deep_view() == failed_of(rsv.take(n as int)),
        decreases results@.len() - n,
    {
        let ghost stn = absorb_results(init, rsv.take(n as int));
        let ghost s0 = succeeded.deep_view();
        let ghost f0 = failed.deep_view();
        proof {
            assert(rsv.take(n + 1).drop_last() =~= rsv.take(n as int));
            assert(rsv.take(n + 1).last() == rsv[n as int]);
        }
        let entry = &results[n];
        match &entry.1 {
            Some(body) => {
                succeeded.push(entry.0.clone());
                proof {
                    assert(succeeded.deep_view() =~= s0 + seq![rsv[n as int].0]);
                    assert(failed.deep_view() =~= f0 + Seq::<Seq<char>>::empty());
                }
                let bls = split_lines_exec(body.as_str());
                let mut t: usize = 0;
                proof {
                    assert(bls.deep_view().take(0) =~= Seq::<Seq<char>>::empty());
                }
                while t < bls.len()
                    invariant
                        t <= bls@.len(),
                        bls.deep_view() == split_lines(rsv[n as int].1->0),
                        rsv == results.deep_view(),
                        n < rsv.len(),
                        lines.deep_view() == absorb_lines(stn, bls.deep_view().take(t as int)).batch,
                        seen.deep_view() == absorb_lines(stn, bls.deep_view().take(t as int)).seen,
                    decreases bls@.len() - t,
                {
                    let ghost stt = absorb_lines(stn, bls.deep_view().take(t as int));
                    proof {
                        assert(bls.deep_view().take(t + 1).drop_last() =~= bls.deep_view().take(
                            t as int,
                        ));
                        assert(bls.deep_view().take(t + 1).last() == bls.deep_view()[t as int]);
                    }
                    let tl = trim_end(bls[t].as_str());
                    if tl.as_str().unicode_len() == 0 {
                        proof {
                            assert(tl@.len() == 0);
                        }
                    } else if vec_contains_string(&seen, &tl) {
                    } else {
                        let ghost l0 = lines.deep_view();
                        let ghost e0 = seen.deep_view();
                        lines.push(tl.clone());
                        seen.push(tl);
                        proof {
                            assert(lines.deep_view() =~= l0.push(trim_end_spec(
                                bls.deep_view()[t as int],
                            )));
                            assert(seen.deep_view() =~= e0.push(trim_end_spec(
                                bls.deep_view()[t as int],
                            )));
                        }
                    }
                    t = t + 1;
                }
                proof {
                    assert(bls.deep_view().take(bls@.len() as int) =~= bls.deep_view());
                }
            },
            None => {
                failed.push(entry.0.clone());
                proof {
                    assert(failed.deep_view() =~= f0 + seq![rsv[n as int].0]);
                    assert(succeeded.deep_view() =~= s0 + Seq::<Seq<char>>::empty());
                }
            },
        }
        n = n + 1;
    }
    proof {
        assert(rsv.take(results@.len() as int) =~= rsv);
        assert(merge_inv(init.seen, init)) by {
            assert(init.seen =~= init.seen + init.batch);
        }
        lemma_absorb_results_inv(init.seen, init, rsv);
    }
    MergeOutcome { lines, succeeded, failed }
}

} // verus!

verus! {

/// The appended text: every batch line followed by a newline.
pub open spec fn join_nl(ls: Seq<Seq<char>>) -> Seq<char>
    decreases ls.len(),
{
    if ls.len() == 0 {
        Seq::empty()
    } else {
        join_nl(ls.drop_last()) + ls.last().push('\n')
    }
}

/// A target completed with a final newline where one is missing.
pub open spec fn with_final_nl(t: Seq<char>) -> Seq<char> {
    if t.len() == 0 || t.last() == '\n' {
        t
    } else {
        t.push('\n')
    }
}

/// Trimming removes characters only.
proof fn lemma_trim_free(raw: Seq<char>, c: char)
    requires
        crate::text::free_of(raw, c),
    ensures
        crate::text::free_of(trim_end_spec(raw), c),
    decreases raw.len(),
{
    if raw.len() > 0 && crate::text::is_ws(raw.last()) {
        assert forall|i: int| 0 <= i < raw.drop_last().len() implies raw.drop_last()[i]
            != c by {
            assert(raw.drop_last()[i] == raw[i]);
        }
        lemma_trim_free(raw.drop_last(), c);
    }
}

/// Every line a split yields is free of newlines.
proof fn lemma_split_lines_free(s: Seq<char>)
    ensures
        forall|k: int|
            0 <= k < split_lines(s).len() ==> crate::text::free_of(
                #[trigger] split_lines(s)[k],
                '\n',
            ),
{
    crate::text::lemma_split_on_free(s, '\n');
    assert forall|k: int| 0 <= k < split_lines(s).len() implies crate::text::free_of(
        #[trigger] split_lines(s)[k],
        '\n',
    ) by {
        assert(split_lines(s)[k] == split_on(s, '\n')[k]);
    }
}

/// Every line of the batch is free of newlines.
pub open spec fn batch_free(st: MergeSt) -> bool {
    forall|i: int|
        0 <= i < st.batch.len() ==> crate::text::free_of(#[trigger] st.batch[i], '\n')
}

proof fn lemma_absorb_lines_batch_free(st: MergeSt, lines: Seq<Seq<char>>)
    requires
        batch_free(st),
        forall|k: int| 0 <= k < lines.len() ==> crate::text::free_of(#[trigger] lines[k], '\n'),
    ensures
        batch_free(absorb_lines(st, lines)),
    decreases lines.len(),
{
    if lines.len() > 0 {
        assert forall|k: int| 0 <= k < lines.drop_last().len() implies crate::text::free_of(
            #[trigger] lines.drop_last()[k],
            '\n',
        ) by {
            assert(lines.drop_last()[k] == lines[k]);
        }
        lemma_absorb_lines_batch_free(st, lines.drop_last());
        lemma_trim_free(lines.last(), '\n');
    }
}

proof fn lemma_absorb_results_batch_free(st: MergeSt, rs: Seq<(Seq<char>, Option<Seq<char>>)>)
    requires
        batch_free(st),
    ensures
        batch_free(absorb_results(st, rs)),
    decreases rs.len(),
{
    if rs.len() > 0 {
        lemma_absorb_results_batch_free(st, rs.drop_last());
        match rs.last().1 {
            Option::Some(body) => {
                lemma_split_lines_free(body);
                lemma_absorb_lines_batch_free(
                    absorb_results(st, rs.drop_last()),
                    split_lines(body),
                );
            },
            Option::None => {},
        }
    }
}

/// The rewritten target splits into the old lines followed by the batch.
proof fn lemma_split_rewritten(target: Seq<char>, batch: Seq<Seq<char>>)
    requires
        forall|i: int| 0 <= i < batch.len() ==> crate::text::free_of(#[trigger] batch[i], '\n'),
    ensures
        split_lines(with_final_nl(target) + join_nl(batch)) == split_lines(target) + batch,
    decreases batch.len(),
{
    let q = with_final_nl(target);
    if target.len() > 0 && target.last() != '\n' {
        crate::text::lemma_split_lines_final_nl(target);
    }
    if batch.len() == 0 {
        assert(q + join_nl(batch) =~= q);
        assert(split_lines(target) + batch =~= split_lines(target));
    } else {
        assert forall|i: int| 0 <= i < batch.drop_last().len() implies crate::text::free_of(
            #[trigger] batch.drop_last()[i],
            '\n',
        ) by {
            assert(batch.drop_last()[i] == batch[i]);
        }
        lemma_split_rewritten(target, batch.drop_last());
        let q2 = q + join_nl(batch.drop_last());
        assert(q + join_nl(batch) =~= q2 + batch.last().push('\n'));
        assert(q2.len() == 0 || q2.last() == '\n') by {
            if join_nl(batch.drop_last()).len() > 0 {
                assert(q2.last() == '\n');
            } else {
                assert(q2 =~= q);
            }
        }
        assert(split_lines(q2) == split_lines(target) + batch.drop_last());
        crate::text::lemma_split_lines_snoc(q2, batch.last());
        assert(split_lines(target) + batch.drop_last() + seq![batch.last()] =~= split_lines(
            target,
        ) + batch);
    }
}

/// Idempotence at the file level: after one run appends its batch to the
/// target — each line with its newline, a missing final newline added
/// first — an identical second run against the rewritten target collects
/// nothing, so running twice leaves the same file as running once.
pub proof fn lemma_second_run_collects_nothing(
    target: Seq<char>,
    rs: Seq<(Seq<char>, Option<Seq<char>>)>,
)
    ensures
        ({
            let once = absorb_results(initial_merge_st(target), rs);
            let rewritten = with_final_nl(target) + join_nl(once.batch);
            absorb_results(initial_merge_st(rewritten), rs).batch == Seq::<Seq<char>>::empty()
        }),
{
    let init = initial_merge_st(target);
    let once = absorb_results(init, rs);
    let rewritten = with_final_nl(target) + join_nl(once.batch);
    assert(merge_inv(init.seen, init)) by {
        assert(init.seen =~= init.seen + init.batch);
    }
    lemma_absorb_results_inv(init.seen, init, rs);
    assert(batch_free(init));
    lemma_absorb_results_batch_free(init, rs);
    lemma_split_rewritten(target, once.batch);
    let init2 = initial_merge_st(rewritten);
    assert(init2.seen =~= init.seen + once.batch) by {
        assert(init2.seen == (split_lines(target) + once.batch).map_values(
            |l: Seq<char>| trim_end_spec(l),
        ));
        assert forall|i: int| 0 <= i < init2.seen.len() implies init2.seen[i] == (init.seen
            + once.batch)[i] by {
            if i < split_lines(target).len() {
                assert((split_lines(target) + once.batch)[i] == split_lines(target)[i]);
            } else {
                assert((split_lines(target) + once.batch)[i] == once.batch[i - split_lines(
                    target,
                ).len()]);
                assert(once.batch[i - split_lines(target).len()] == trim_end_spec(
                    once.batch[i - split_lines(target).len()],
                ));
            }
        }
    }
    assert(init2.seen == once.seen);
    assert(init2 == MergeSt { batch: Seq::empty(), seen: once.seen });
    lemma_absorb_results_seen(init, rs);
    lemma_absorb_results_noop(MergeSt { batch: Seq::empty(), seen: once.seen }, rs);
}

} // verus!
